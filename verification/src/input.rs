//! Frame-by-frame input tracking.
//!
//! Raw press/release edges from the host are folded into a
//! three-state-per-key model: a key is `Pressed` for the cycle in which
//! its down edge arrived, `Down` while held, and `Released` for the cycle
//! in which its up edge arrived; afterwards it is not tracked at all.

use vstd::prelude::*;

verus! {

/// Input state of a mouse/keyboard button.
#[derive(Clone, Copy, Debug, PartialEq, Eq, PartialOrd, Ord, Structural)]
pub enum InputState {
    /// The button has just been pressed.
    Pressed,
    /// The button is being held down.
    Down,
    /// The button has just been released.
    Released,
}

/// Modifier flags as delivered by the most recent keyboard event.
///
/// They are overwritten wholesale on every keyboard event, never merged.
#[derive(Clone, Copy, Debug, PartialEq, Eq, Structural)]
pub struct KeyMods {
    /// A shift key is held.
    pub shift: bool,
    /// A control key is held.
    pub ctrl: bool,
    /// An alt key is held.
    pub alt: bool,
    /// A logo (super/command) key is held.
    pub logo: bool,
}

impl KeyMods {
    /// Modifier state with no modifier key held.
    pub fn cleared() -> (m: KeyMods)
        ensures
            m == (KeyMods { shift: false, ctrl: false, alt: false, logo: false }),
    {
        KeyMods { shift: false, ctrl: false, alt: false, logo: false }
    }
}

/// How one tracked entry moves at a frame boundary: a fresh press turns
/// into a hold, everything else keeps its state (a `Released` entry is
/// dropped from the map instead, see [`advanced`]).
pub open spec fn step_state(s: InputState) -> InputState {
    if s == InputState::Pressed {
        InputState::Down
    } else {
        s
    }
}

/// The per-frame sweep over a whole state map: `Released` entries are
/// removed, `Pressed` entries become `Down`, `Down` entries stay.
pub open spec fn advanced(m: Map<u32, InputState>) -> Map<u32, InputState> {
    Map::new(
        |k: u32| m.contains_key(k) && m[k] != InputState::Released,
        |k: u32| step_state(m[k]),
    )
}

/// Does some entry of `s` carry the key `k`?
spec fn has_key(s: Seq<(u32, InputState)>, k: u32) -> bool {
    exists|i: int| 0 <= i < s.len() && (#[trigger] s[i]).0 == k
}

/// The position of the entry carrying `k` (meaningful when `has_key`).
spec fn index_of(s: Seq<(u32, InputState)>, k: u32) -> int {
    choose|i: int| 0 <= i < s.len() && (#[trigger] s[i]).0 == k
}

/// No two entries of `s` carry the same key.
spec fn seq_wf(s: Seq<(u32, InputState)>) -> bool {
    forall|i: int, j: int|
        0 <= i < j < s.len() ==> (#[trigger] s[i]).0 != (#[trigger] s[j]).0
}

/// The finite map that an entry sequence denotes.
spec fn seq_map(s: Seq<(u32, InputState)>) -> Map<u32, InputState> {
    Map::new(|k: u32| has_key(s, k), |k: u32| s[index_of(s, k)].1)
}

proof fn lemma_value_at(s: Seq<(u32, InputState)>, i: int)
    requires
        seq_wf(s),
        0 <= i < s.len(),
    ensures
        seq_map(s).contains_key(s[i].0),
        seq_map(s)[s[i].0] == s[i].1,
{
    let k: u32 = s[i].0;
    assert(has_key(s, k));
    let j: int = index_of(s, k);
    assert(0 <= j < s.len() && s[j].0 == k);
    if i < j {
        assert(s[i].0 != s[j].0);
    } else if j < i {
        assert(s[j].0 != s[i].0);
    }
}

proof fn lemma_absent(s: Seq<(u32, InputState)>, k: u32)
    requires
        !has_key(s, k),
    ensures
        !seq_map(s).contains_key(k),
{
}

proof fn lemma_seq_map_update(s: Seq<(u32, InputState)>, i: int, v: InputState)
    requires
        seq_wf(s),
        0 <= i < s.len(),
    ensures
        seq_wf(s.update(i, (s[i].0, v))),
        seq_map(s.update(i, (s[i].0, v))) == seq_map(s).insert(s[i].0, v),
{
    let k: u32 = s[i].0;
    let t = s.update(i, (k, v));
    assert(forall|j: int| 0 <= j < t.len() ==> (#[trigger] t[j]).0 == s[j].0);
    assert forall|a: int, b: int|
        0 <= a < b < t.len() implies (#[trigger] t[a]).0 != (#[trigger] t[b]).0 by {
        assert(s[a].0 != s[b].0);
    }
    assert forall|k2: u32| #[trigger] has_key(t, k2) implies has_key(s, k2) by {
        let j: int = choose|j: int| 0 <= j < t.len() && (#[trigger] t[j]).0 == k2;
        assert(s[j].0 == k2);
    }
    assert forall|k2: u32| #[trigger] has_key(s, k2) implies has_key(t, k2) by {
        let j: int = choose|j: int| 0 <= j < s.len() && (#[trigger] s[j]).0 == k2;
        assert(t[j].0 == k2);
    }
    assert forall|k2: u32|
        has_key(t, k2) && k2 != k implies seq_map(t)[k2] == seq_map(s)[k2] by {
        let j: int = index_of(t, k2);
        assert(0 <= j < t.len() && t[j].0 == k2);
        assert(j != i);
        lemma_value_at(t, j);
        lemma_value_at(s, j);
    }
    lemma_value_at(t, i);
    assert(has_key(s, k));
    assert(seq_map(t) =~= seq_map(s).insert(k, v));
}

proof fn lemma_seq_map_push(s: Seq<(u32, InputState)>, k: u32, v: InputState)
    requires
        seq_wf(s),
        !has_key(s, k),
    ensures
        seq_wf(s.push((k, v))),
        seq_map(s.push((k, v))) == seq_map(s).insert(k, v),
{
    let t = s.push((k, v));
    assert(forall|j: int| 0 <= j < s.len() ==> (#[trigger] t[j]).0 == s[j].0);
    assert(t[s.len() as int].0 == k);
    assert forall|a: int, b: int|
        0 <= a < b < t.len() implies (#[trigger] t[a]).0 != (#[trigger] t[b]).0 by {
        if b < s.len() {
            assert(s[a].0 != s[b].0);
        } else {
            assert(t[b].0 == k);
            assert(s[a].0 != k);
        }
    }
    assert forall|k2: u32| #[trigger] has_key(t, k2) implies has_key(s, k2) || k2 == k by {
        let j: int = choose|j: int| 0 <= j < t.len() && (#[trigger] t[j]).0 == k2;
        if j < s.len() {
            assert(s[j].0 == k2);
        }
    }
    assert forall|k2: u32| #[trigger] has_key(s, k2) implies has_key(t, k2) by {
        let j: int = choose|j: int| 0 <= j < s.len() && (#[trigger] s[j]).0 == k2;
        assert(t[j].0 == k2);
    }
    assert forall|k2: u32|
        has_key(t, k2) && k2 != k implies seq_map(t)[k2] == seq_map(s)[k2] by {
        let j: int = index_of(t, k2);
        assert(0 <= j < t.len() && t[j].0 == k2);
        assert(j < s.len());
        lemma_value_at(t, j);
        lemma_value_at(s, j);
    }
    lemma_value_at(t, s.len() as int);
    assert(seq_map(t) =~= seq_map(s).insert(k, v));
}

proof fn lemma_advanced_insert_fresh(m: Map<u32, InputState>, k: u32, v: InputState)
    requires
        !m.contains_key(k),
    ensures
        v == InputState::Released ==> advanced(m.insert(k, v)) == advanced(m),
        v != InputState::Released ==> advanced(m.insert(k, v)) == advanced(m).insert(
            k,
            step_state(v),
        ),
{
    if v == InputState::Released {
        assert(advanced(m.insert(k, v)) =~= advanced(m));
    } else {
        assert(advanced(m.insert(k, v)) =~= advanced(m).insert(k, step_state(v)));
    }
}

/// A finite map from key (or mouse-button) identifiers to their tracked
/// [`InputState`], stored as a duplicate-free entry list.
pub struct InputMap {
    entries: Vec<(u32, InputState)>,
}

impl View for InputMap {
    type V = Map<u32, InputState>;

    closed spec fn view(&self) -> Map<u32, InputState> {
        seq_map(self.entries@)
    }
}

impl InputMap {
    /// The entry list carries each key at most once.
    pub closed spec fn wf(&self) -> bool {
        seq_wf(self.entries@)
    }

    /// An empty map: nothing is tracked.
    pub fn new() -> (m: InputMap)
        ensures
            m.wf(),
            m@ == Map::<u32, InputState>::empty(),
    {
        let m = InputMap { entries: Vec::new() };
        proof {
            assert(m@ =~= Map::<u32, InputState>::empty());
        }
        m
    }

    /// The tracked state of `key`, or `None` if the key is not tracked.
    pub fn get(&self, key: u32) -> (r: Option<InputState>)
        requires
            self.wf(),
        ensures
            r == if self@.contains_key(key) {
                Some(self@[key])
            } else {
                None::<InputState>
            },
    {
        let n: usize = self.entries.len();
        let mut i: usize = 0;
        while i < n
            invariant
                n == self.entries@.len(),
                self.wf(),
                0 <= i <= n,
                forall|j: int| 0 <= j < i ==> (#[trigger] self.entries@[j]).0 != key,
            decreases n - i,
        {
            let e: (u32, InputState) = self.entries[i];
            if e.0 == key {
                proof {
                    lemma_value_at(self.entries@, i as int);
                }
                return Some(e.1);
            }
            i += 1;
        }
        proof {
            lemma_absent(self.entries@, key);
        }
        None
    }

    /// Set `key` to `state`, overwriting any prior state.
    pub fn set_state(&mut self, key: u32, state: InputState)
        requires
            old(self).wf(),
        ensures
            final(self).wf(),
            final(self)@ == old(self)@.insert(key, state),
    {
        let n: usize = self.entries.len();
        let mut i: usize = 0;
        while i < n
            invariant
                n == self.entries@.len(),
                self.wf(),
                self.entries@ == old(self).entries@,
                0 <= i <= n,
                forall|j: int| 0 <= j < i ==> (#[trigger] self.entries@[j]).0 != key,
            decreases n - i,
        {
            let e: (u32, InputState) = self.entries[i];
            if e.0 == key {
                proof {
                    lemma_seq_map_update(self.entries@, i as int, state);
                }
                self.entries.set(i, (key, state));
                return;
            }
            i += 1;
        }
        proof {
            lemma_absent(self.entries@, key);
            lemma_seq_map_push(self.entries@, key, state);
        }
        self.entries.push((key, state));
    }

    /// Apply the per-frame sweep: drop `Released` entries, turn `Pressed`
    /// into `Down`, keep `Down`.
    pub fn advance(&mut self)
        requires
            old(self).wf(),
        ensures
            final(self).wf(),
            final(self)@ == advanced(old(self)@),
    {
        let n: usize = self.entries.len();
        let mut acc: Vec<(u32, InputState)> = Vec::new();
        let mut i: usize = 0;
        proof {
            assert(seq_map(acc@) =~= Map::<u32, InputState>::empty());
            assert(self.entries@.take(0) =~= Seq::<(u32, InputState)>::empty());
            assert(seq_map(self.entries@.take(0)) =~= Map::<u32, InputState>::empty());
            assert(advanced(Map::<u32, InputState>::empty()) =~= Map::<u32, InputState>::empty());
        }
        while i < n
            invariant
                n == self.entries@.len(),
                self.wf(),
                self.entries@ == old(self).entries@,
                0 <= i <= n,
                seq_wf(acc@),
                seq_map(acc@) == advanced(seq_map(self.entries@.take(i as int))),
            decreases n - i,
        {
            let e: (u32, InputState) = self.entries[i];
            proof {
                let s = self.entries@;
                let ii: int = i as int;
                let pre = s.take(ii);
                let k: u32 = s[ii].0;
                assert(s.take(ii + 1) =~= pre.push(s[ii]));
                assert(seq_wf(pre)) by {
                    assert forall|a: int, b: int|
                        0 <= a < b < pre.len() implies (#[trigger] pre[a]).0 != (
                    #[trigger] pre[b]).0 by {
                        assert(s[a].0 != s[b].0);
                    }
                }
                assert(!has_key(pre, k)) by {
                    if has_key(pre, k) {
                        let j: int = choose|j: int|
                            0 <= j < pre.len() && (#[trigger] pre[j]).0 == k;
                        assert(s[j].0 == s[ii].0);
                        assert(false);
                    }
                }
                assert(!has_key(acc@, k)) by {
                    if has_key(acc@, k) {
                        assert(seq_map(acc@).contains_key(k));
                        assert(advanced(seq_map(pre)).contains_key(k));
                        assert(seq_map(pre).contains_key(k));
                        assert(has_key(pre, k));
                        assert(false);
                    }
                }
                lemma_absent(pre, k);
                lemma_seq_map_push(pre, k, s[ii].1);
                lemma_advanced_insert_fresh(seq_map(pre), k, s[ii].1);
                if s[ii].1 != InputState::Released {
                    lemma_seq_map_push(acc@, k, step_state(s[ii].1));
                }
            }
            if e.1 == InputState::Released {
                // the entry is dropped from the map
            } else if e.1 == InputState::Pressed {
                acc.push((e.0, InputState::Down));
            } else {
                acc.push((e.0, e.1));
            }
            i += 1;
        }
        proof {
            assert(self.entries@.take(n as int) =~= self.entries@);
        }
        self.entries = acc;
    }

    /// The tracked entries as a list of `(key, state)` pairs: every listed
    /// pair is in the map, every tracked key is listed, and no key is
    /// listed twice.
    pub fn entries(&self) -> (r: &Vec<(u32, InputState)>)
        requires
            self.wf(),
        ensures
            forall|j: int|
                0 <= j < r@.len() ==> self@.contains_key((#[trigger] r@[j]).0) && self@[r@[j].0]
                    == r@[j].1,
            forall|k: u32|
                self@.contains_key(k) ==> exists|j: int|
                    0 <= j < r@.len() && (#[trigger] r@[j]).0 == k,
            forall|a: int, b: int|
                0 <= a < b < r@.len() ==> (#[trigger] r@[a]).0 != (#[trigger] r@[b]).0,
    {
        proof {
            assert forall|j: int|
                0 <= j < self.entries@.len() implies self@.contains_key(
                (#[trigger] self.entries@[j]).0,
            ) && self@[self.entries@[j].0] == self.entries@[j].1 by {
                lemma_value_at(self.entries@, j);
            }
        }
        &self.entries
    }
}

/// The abstract state of an [`InputTracker`].
pub ghost struct TrackerView {
    /// Tracked keyboard keys.
    pub keys: Map<u32, InputState>,
    /// Tracked mouse buttons.
    pub mouse_buttons: Map<u32, InputState>,
    /// Modifiers of the most recent keyboard event.
    pub key_mods: KeyMods,
    /// Last reported mouse position, as the host gave it, bit for bit.
    pub mouse_pos: (u32, u32),
    /// This frame's wheel movement, as the host gave it, bit for bit.
    pub mouse_wheel: (u32, u32),
}

/// Input bookkeeping across frames: per-key and per-button edge states,
/// the current modifiers, the mouse position and this frame's wheel
/// movement.
///
/// The mouse position and wheel movement are numbers the host hands over
/// (window coordinates and scroll deltas); the tracker never interprets
/// them, it only stores them, returns them unchanged, and resets the
/// wheel pair to zero at every frame advance. A host that measures them
/// in floating point passes their bit patterns.
pub struct InputTracker {
    keys: InputMap,
    mouse_buttons: InputMap,
    key_mods: KeyMods,
    mouse_pos: (u32, u32),
    mouse_wheel: (u32, u32),
}

impl View for InputTracker {
    type V = TrackerView;

    closed spec fn view(&self) -> TrackerView {
        TrackerView {
            keys: self.keys@,
            mouse_buttons: self.mouse_buttons@,
            key_mods: self.key_mods,
            mouse_pos: self.mouse_pos,
            mouse_wheel: self.mouse_wheel,
        }
    }
}

impl InputTracker {
    /// Both state maps carry each identifier at most once.
    pub closed spec fn wf(&self) -> bool {
        self.keys.wf() && self.mouse_buttons.wf()
    }

    /// A tracker with nothing tracked, cleared modifiers, and position
    /// and wheel at zero.
    pub fn new() -> (t: InputTracker)
        ensures
            t.wf(),
            t@.keys == Map::<u32, InputState>::empty(),
            t@.mouse_buttons == Map::<u32, InputState>::empty(),
            t@.key_mods == (KeyMods { shift: false, ctrl: false, alt: false, logo: false }),
            t@.mouse_pos == (0u32, 0u32),
            t@.mouse_wheel == (0u32, 0u32),
    {
        InputTracker {
            keys: InputMap::new(),
            mouse_buttons: InputMap::new(),
            key_mods: KeyMods::cleared(),
            mouse_pos: (0, 0),
            mouse_wheel: (0, 0),
        }
    }

    /// A key's down edge. A repeat event (keyboard auto-repeat) leaves the
    /// key map untouched; a genuine press sets the key to `Pressed`,
    /// overwriting any prior state. The modifiers are overwritten either
    /// way.
    pub fn on_key_down(&mut self, key: u32, mods: KeyMods, repeat: bool)
        requires
            old(self).wf(),
        ensures
            final(self).wf(),
            final(self)@.keys == if repeat {
                old(self)@.keys
            } else {
                old(self)@.keys.insert(key, InputState::Pressed)
            },
            final(self)@.key_mods == mods,
            final(self)@.mouse_buttons == old(self)@.mouse_buttons,
            final(self)@.mouse_pos == old(self)@.mouse_pos,
            final(self)@.mouse_wheel == old(self)@.mouse_wheel,
    {
        if !repeat {
            self.keys.set_state(key, InputState::Pressed);
        }
        self.key_mods = mods;
    }

    /// A key's up edge: the key is set to `Released` unconditionally, so
    /// the release edge is observable even for a key that was never seen
    /// going down. The modifiers are overwritten.
    pub fn on_key_up(&mut self, key: u32, mods: KeyMods)
        requires
            old(self).wf(),
        ensures
            final(self).wf(),
            final(self)@.keys == old(self)@.keys.insert(key, InputState::Released),
            final(self)@.key_mods == mods,
            final(self)@.mouse_buttons == old(self)@.mouse_buttons,
            final(self)@.mouse_pos == old(self)@.mouse_pos,
            final(self)@.mouse_wheel == old(self)@.mouse_wheel,
    {
        self.keys.set_state(key, InputState::Released);
        self.key_mods = mods;
    }

    /// A mouse button's down edge: the button is set to `Pressed`. Mouse
    /// buttons have no auto-repeat, so there is nothing to suppress.
    pub fn on_mouse_button_down(&mut self, button: u32)
        requires
            old(self).wf(),
        ensures
            final(self).wf(),
            final(self)@.mouse_buttons == old(self)@.mouse_buttons.insert(
                button,
                InputState::Pressed,
            ),
            final(self)@.keys == old(self)@.keys,
            final(self)@.key_mods == old(self)@.key_mods,
            final(self)@.mouse_pos == old(self)@.mouse_pos,
            final(self)@.mouse_wheel == old(self)@.mouse_wheel,
    {
        self.mouse_buttons.set_state(button, InputState::Pressed);
    }

    /// A mouse button's up edge: the button is set to `Released`.
    pub fn on_mouse_button_up(&mut self, button: u32)
        requires
            old(self).wf(),
        ensures
            final(self).wf(),
            final(self)@.mouse_buttons == old(self)@.mouse_buttons.insert(
                button,
                InputState::Released,
            ),
            final(self)@.keys == old(self)@.keys,
            final(self)@.key_mods == old(self)@.key_mods,
            final(self)@.mouse_pos == old(self)@.mouse_pos,
            final(self)@.mouse_wheel == old(self)@.mouse_wheel,
    {
        self.mouse_buttons.set_state(button, InputState::Released);
    }

    /// The mouse moved: the stored position is overwritten with the
    /// host's values, bit for bit.
    pub fn on_mouse_motion(&mut self, x: u32, y: u32)
        requires
            old(self).wf(),
        ensures
            final(self).wf(),
            final(self)@.mouse_pos == (x, y),
            final(self)@.keys == old(self)@.keys,
            final(self)@.mouse_buttons == old(self)@.mouse_buttons,
            final(self)@.key_mods == old(self)@.key_mods,
            final(self)@.mouse_wheel == old(self)@.mouse_wheel,
    {
        self.mouse_pos = (x, y);
    }

    /// The wheel moved: the stored movement is overwritten, not
    /// accumulated — it stands for "this frame's scroll" and is reset at
    /// every frame advance.
    pub fn on_mouse_wheel(&mut self, dx: u32, dy: u32)
        requires
            old(self).wf(),
        ensures
            final(self).wf(),
            final(self)@.mouse_wheel == (dx, dy),
            final(self)@.keys == old(self)@.keys,
            final(self)@.mouse_buttons == old(self)@.mouse_buttons,
            final(self)@.key_mods == old(self)@.key_mods,
            final(self)@.mouse_pos == old(self)@.mouse_pos,
    {
        self.mouse_wheel = (dx, dy);
    }

    /// A character event: only the modifiers are overwritten.
    pub fn on_char(&mut self, mods: KeyMods)
        requires
            old(self).wf(),
        ensures
            final(self).wf(),
            final(self)@.key_mods == mods,
            final(self)@.keys == old(self)@.keys,
            final(self)@.mouse_buttons == old(self)@.mouse_buttons,
            final(self)@.mouse_pos == old(self)@.mouse_pos,
            final(self)@.mouse_wheel == old(self)@.mouse_wheel,
    {
        self.key_mods = mods;
    }

    /// The frame boundary, run once after the application's update
    /// callback: both state maps take the per-frame sweep (`Released`
    /// entries leave, `Pressed` becomes `Down`, `Down` stays) and the
    /// wheel movement is reset to zero.
    pub fn advance_frame(&mut self)
        requires
            old(self).wf(),
        ensures
            final(self).wf(),
            final(self)@.keys == advanced(old(self)@.keys),
            final(self)@.mouse_buttons == advanced(old(self)@.mouse_buttons),
            final(self)@.mouse_wheel == (0u32, 0u32),
            final(self)@.key_mods == old(self)@.key_mods,
            final(self)@.mouse_pos == old(self)@.mouse_pos,
    {
        self.keys.advance();
        self.mouse_buttons.advance();
        self.mouse_wheel = (0, 0);
    }

    /// The tracked state of a key, or `None` if it is neither held nor
    /// just released.
    pub fn get_key_state(&self, key: u32) -> (r: Option<InputState>)
        requires
            self.wf(),
        ensures
            r == if self@.keys.contains_key(key) {
                Some(self@.keys[key])
            } else {
                None::<InputState>
            },
    {
        self.keys.get(key)
    }

    /// Is the key held (just pressed or held down)?
    pub fn is_key_down(&self, key: u32) -> (r: bool)
        requires
            self.wf(),
        ensures
            r == (self@.keys.contains_key(key) && self@.keys[key] != InputState::Released),
    {
        match self.keys.get(key) {
            Some(state) => state != InputState::Released,
            None => false,
        }
    }

    /// Has the key just been pressed (this cycle)?
    pub fn is_key_pressed(&self, key: u32) -> (r: bool)
        requires
            self.wf(),
        ensures
            r == (self@.keys.contains_key(key) && self@.keys[key] == InputState::Pressed),
    {
        match self.keys.get(key) {
            Some(state) => state == InputState::Pressed,
            None => false,
        }
    }

    /// Has the key just been released (this cycle)?
    pub fn is_key_released(&self, key: u32) -> (r: bool)
        requires
            self.wf(),
        ensures
            r == (self@.keys.contains_key(key) && self@.keys[key] == InputState::Released),
    {
        match self.keys.get(key) {
            Some(state) => state == InputState::Released,
            None => false,
        }
    }

    /// The tracked state of a mouse button, or `None`.
    pub fn get_mouse_button_state(&self, button: u32) -> (r: Option<InputState>)
        requires
            self.wf(),
        ensures
            r == if self@.mouse_buttons.contains_key(button) {
                Some(self@.mouse_buttons[button])
            } else {
                None::<InputState>
            },
    {
        self.mouse_buttons.get(button)
    }

    /// Is the mouse button held (just pressed or held down)?
    pub fn is_mouse_button_down(&self, button: u32) -> (r: bool)
        requires
            self.wf(),
        ensures
            r == (self@.mouse_buttons.contains_key(button) && self@.mouse_buttons[button]
                != InputState::Released),
    {
        match self.mouse_buttons.get(button) {
            Some(state) => state != InputState::Released,
            None => false,
        }
    }

    /// Has the mouse button just been pressed (this cycle)?
    pub fn is_mouse_button_pressed(&self, button: u32) -> (r: bool)
        requires
            self.wf(),
        ensures
            r == (self@.mouse_buttons.contains_key(button) && self@.mouse_buttons[button]
                == InputState::Pressed),
    {
        match self.mouse_buttons.get(button) {
            Some(state) => state == InputState::Pressed,
            None => false,
        }
    }

    /// Has the mouse button just been released (this cycle)?
    pub fn is_mouse_button_released(&self, button: u32) -> (r: bool)
        requires
            self.wf(),
        ensures
            r == (self@.mouse_buttons.contains_key(button) && self@.mouse_buttons[button]
                == InputState::Released),
    {
        match self.mouse_buttons.get(button) {
            Some(state) => state == InputState::Released,
            None => false,
        }
    }

    /// The modifiers of the most recent keyboard event.
    pub fn get_key_mods(&self) -> (r: KeyMods)
        ensures
            r == self@.key_mods,
    {
        self.key_mods
    }

    /// The last reported mouse position, exactly as the host gave it.
    pub fn get_mouse_pos(&self) -> (r: (u32, u32))
        ensures
            r == self@.mouse_pos,
    {
        self.mouse_pos
    }

    /// This frame's wheel movement, exactly as the host gave it.
    pub fn get_mouse_wheel(&self) -> (r: (u32, u32))
        ensures
            r == self@.mouse_wheel,
    {
        self.mouse_wheel
    }

    /// All tracked keys, as a map.
    pub fn get_all_keys(&self) -> (r: &InputMap)
        requires
            self.wf(),
        ensures
            r.wf(),
            r@ == self@.keys,
    {
        &self.keys
    }

    /// All tracked mouse buttons, as a map.
    pub fn get_all_mouse_buttons(&self) -> (r: &InputMap)
        requires
            self.wf(),
        ensures
            r.wf(),
            r@ == self@.mouse_buttons,
    {
        &self.mouse_buttons
    }
}

/// Law: whatever was tracked before, a key whose down edge arrives in one
/// cycle reads `Down` after the frame advance, and still reads `Down`
/// after a further advance with no intervening events.
pub proof fn lemma_pressed_becomes_down(m: Map<u32, InputState>, k: u32)
    ensures
        advanced(m.insert(k, InputState::Pressed)).contains_key(k),
        advanced(m.insert(k, InputState::Pressed))[k] == InputState::Down,
        advanced(advanced(m.insert(k, InputState::Pressed))).contains_key(k),
        advanced(advanced(m.insert(k, InputState::Pressed)))[k] == InputState::Down,
{
}

/// Law: a press and a release within one cycle leave the key reading
/// `Released` until the frame advance; the advance drops it, and it stays
/// absent after a further advance.
pub proof fn lemma_release_edge_visible_once(m: Map<u32, InputState>, k: u32)
    ensures
        m.insert(k, InputState::Pressed).insert(k, InputState::Released)[k]
            == InputState::Released,
        !advanced(m.insert(k, InputState::Pressed).insert(k, InputState::Released)).contains_key(
            k,
        ),
        !advanced(
            advanced(m.insert(k, InputState::Pressed).insert(k, InputState::Released)),
        ).contains_key(k),
{
}

/// Law: the sweep never invents a key — everything it tracks afterwards
/// was tracked before, with `Pressed` stepped to `Down` and nothing else
/// changed.
pub proof fn lemma_advance_only_steps(m: Map<u32, InputState>, k: u32)
    ensures
        advanced(m).contains_key(k) ==> m.contains_key(k) && m[k] != InputState::Released
            && advanced(m)[k] == step_state(m[k]),
{
}

} // verus!
