//! The selection state machine.
//!
//! One [`SelectionEngine`] owns the hint-to-window table, the typed hint
//! prefix and the chord of currently-held keys for one picker run.  Each
//! key press or release is fed in as a normalized key name; the engine
//! answers with what the shell around it should do next: wait, redraw the
//! hints, focus or print a window, or stop.

use crate::sequence::{seq_remove, Sequence};
use crate::text::{contains_substring, is_prefix_of};
use crate::windows::{DesktopWindow, RenderWindow};
use vstd::prelude::*;

verus! {

/// What the shell should do after one key event.
#[derive(Debug)]
pub enum KeyAction {
    /// Keep waiting for further keys.
    Wait,
    /// Redraw every hint with the current typed prefix.
    Redraw,
    /// Focus this window and stop.
    Focus(DesktopWindow),
    /// Print this window's native identifier and stop.
    Print(DesktopWindow),
    /// Stop without selecting a window.
    Abort,
}

/// The engine state, as the contracts speak of it.
pub ghost struct EngineView {
    /// Hint string and window of each entry, in insertion order.
    pub entries: Seq<(Seq<char>, RenderWindow)>,
    /// The ordered hint characters typed so far.
    pub pressed: Seq<char>,
    /// The canonically sorted chord of currently-held keys.
    pub chord: Seq<Seq<char>>,
    /// The configured exit chords.
    pub exit_chords: Seq<Seq<Seq<char>>>,
    /// The configured hint alphabet.
    pub hint_chars: Seq<char>,
    /// Whether a selected window is printed instead of focused.
    pub print_only: bool,
}

/// The chord equals one of the configured exit chords.
pub open spec fn chord_matches(exit_chords: Seq<Seq<Seq<char>>>, chord: Seq<Seq<char>>) -> bool {
    exists|i: int| 0 <= i < exit_chords.len() && exit_chords[i] == chord
}

/// The first entry whose hint reads exactly `p`, or -1.
pub open spec fn find_hint(entries: Seq<(Seq<char>, RenderWindow)>, p: Seq<char>) -> int
    decreases entries.len(),
{
    if entries.len() == 0 {
        -1
    } else if entries[0].0 == p {
        0
    } else {
        let r = find_hint(entries.drop_first(), p);
        if r < 0 {
            -1
        } else {
            r + 1
        }
    }
}

proof fn lemma_find_hint_at(entries: Seq<(Seq<char>, RenderWindow)>, p: Seq<char>, j: int)
    requires
        0 <= j < entries.len(),
        entries[j].0 == p,
        forall|k: int| 0 <= k < j ==> (#[trigger] entries[k]).0 != p,
    ensures
        find_hint(entries, p) == j,
    decreases j,
{
    if j > 0 {
        assert forall|k: int| 0 <= k < j - 1 implies (#[trigger] entries.drop_first()[k]).0
            != p by {
            assert(entries.drop_first()[k] == entries[k + 1]);
        }
        lemma_find_hint_at(entries.drop_first(), p, j - 1);
    }
}

proof fn lemma_find_hint_absent(entries: Seq<(Seq<char>, RenderWindow)>, p: Seq<char>)
    requires
        forall|k: int| 0 <= k < entries.len() ==> (#[trigger] entries[k]).0 != p,
    ensures
        find_hint(entries, p) == -1,
    decreases entries.len(),
{
    if entries.len() > 0 {
        assert forall|k: int|
            0 <= k < entries.drop_first().len() implies (#[trigger] entries.drop_first()[k]).0
            != p by {
            assert(entries.drop_first()[k] == entries[k + 1]);
        }
        lemma_find_hint_absent(entries.drop_first(), p);
    }
}

/// Some hint starts with the typed prefix `p`.
pub open spec fn any_hint_starts_with(entries: Seq<(Seq<char>, RenderWindow)>, p: Seq<
    char,
>) -> bool {
    exists|i: int| 0 <= i < entries.len() && is_prefix_of(p, (#[trigger] entries[i]).0)
}

/// The typed prefix after a key press: the key name is appended when it
/// occurs in the hint alphabet, and ignored otherwise.
pub open spec fn after_push(pressed: Seq<char>, hint_chars: Seq<char>, k: Seq<char>) -> Seq<
    char,
> {
    if contains_substring(hint_chars, k) {
        pressed + k
    } else {
        pressed
    }
}

/// The typed prefix after rolling the key name back off its end, where it
/// occurs in the prefix at all.
pub open spec fn rollback(pressed: Seq<char>, k: Seq<char>) -> Seq<char> {
    if contains_substring(pressed, k) {
        pressed.take(pressed.len() - k.len())
    } else {
        pressed
    }
}

/// Remove the last pressed key from the typed prefix: when the key name
/// occurs in the prefix, that many characters are dropped from its end.
pub fn remove_last_key(pressed_keys: &mut String, kstr: &str)
    ensures
        final(pressed_keys)@ == rollback(old(pressed_keys)@, kstr@),
{
    if crate::text::str_contains(pressed_keys.as_str(), kstr) {
        let total = pressed_keys.as_str().unicode_len();
        let klen = kstr.unicode_len();
        proof {
            let h = pressed_keys@;
            let n = kstr@;
            let k = choose|k: int|
                0 <= k <= h.len() - n.len() && n == #[trigger] h.subrange(k, k + n.len() as int);
            assert(klen <= total);
        }
        let rest = pressed_keys.as_str().substring_char(0, total - klen);
        let shortened = String::from_str(rest);
        *pressed_keys = shortened;
    }
}

/// The selection engine: tracks the typed prefix and the held chord over
/// one run, and decides after each key what happens next.
pub struct SelectionEngine {
    render_windows: Vec<(String, RenderWindow)>,
    pressed_keys: String,
    sequence: Sequence,
    exit_keys: Vec<Sequence>,
    hint_chars: String,
    print_only: bool,
}

impl View for SelectionEngine {
    type V = EngineView;

    closed spec fn view(&self) -> EngineView {
        EngineView {
            entries: Seq::new(
                self.render_windows@.len(),
                |i: int| (self.render_windows@[i].0@, self.render_windows@[i].1),
            ),
            pressed: self.pressed_keys@,
            chord: self.sequence@,
            exit_chords: Seq::new(self.exit_keys@.len(), |i: int| self.exit_keys@[i]@),
            hint_chars: self.hint_chars@,
            print_only: self.print_only,
        }
    }
}

impl SelectionEngine {
    /// The held chord is canonically sorted.
    pub open spec fn wf(&self) -> bool {
        vstd::relations::sorted_by(self@.chord, crate::sequence::token_order())
    }

    /// Start a run: no key typed, no key held.
    pub fn new(
        render_windows: Vec<(String, RenderWindow)>,
        hint_chars: String,
        exit_keys: Vec<Sequence>,
        print_only: bool,
    ) -> (e: SelectionEngine)
        ensures
            e.wf(),
            e@.entries.len() == render_windows@.len(),
            forall|i: int|
                0 <= i < render_windows@.len() ==> #[trigger] e@.entries[i] == (
                    render_windows@[i].0@,
                    render_windows@[i].1,
                ),
            e@.pressed == Seq::<char>::empty(),
            e@.chord == Seq::<Seq<char>>::empty(),
            e@.exit_chords.len() == exit_keys@.len(),
            forall|i: int|
                0 <= i < exit_keys@.len() ==> #[trigger] e@.exit_chords[i] == exit_keys@[i]@,
            e@.hint_chars == hint_chars@,
            e@.print_only == print_only,
    {
        SelectionEngine {
            render_windows,
            pressed_keys: String::new(),
            sequence: Sequence::new(None),
            exit_keys,
            hint_chars,
            print_only,
        }
    }

    /// The hint-to-window table, as handed in at the start of the run.
    pub fn entries(&self) -> (r: &Vec<(String, RenderWindow)>)
        ensures
            r@.len() == self@.entries.len(),
            forall|i: int|
                0 <= i < r@.len() ==> (#[trigger] r@[i].0@, r@[i].1) == self@.entries[i],
    {
        &self.render_windows
    }

    /// The ordered hint characters typed so far.
    pub fn pressed(&self) -> (r: &String)
        ensures
            r@ == self@.pressed,
    {
        &self.pressed_keys
    }

    fn chord_in_exit_keys(&self) -> (r: bool)
        ensures
            r == chord_matches(self@.exit_chords, self@.chord),
    {
        let n = self.exit_keys.len();
        let mut i: usize = 0;
        while i < n
            invariant
                n == self.exit_keys@.len(),
                i <= n,
                forall|j: int| 0 <= j < i ==> self@.exit_chords[j] != self@.chord,
            decreases n - i,
        {
            if self.exit_keys[i].eq(&self.sequence) {
                proof {
                    assert(self@.exit_chords[i as int] == self@.chord);
                }
                return true;
            }
            i = i + 1;
        }
        proof {
            if chord_matches(self@.exit_chords, self@.chord) {
                let j = choose|j: int|
                    0 <= j < self@.exit_chords.len() && self@.exit_chords[j] == self@.chord;
                assert(self@.exit_chords[j] != self@.chord);
            }
        }
        false
    }

    /// A key was released: drop it from the held chord.  The typed prefix
    /// and the hint table stay as they are.
    pub fn handle_key_release(&mut self, kstr: &str)
        requires
            old(self).wf(),
        ensures
            final(self).wf(),
            final(self)@.chord == seq_remove(old(self)@.chord, kstr@),
            final(self)@.entries == old(self)@.entries,
            final(self)@.pressed == old(self)@.pressed,
            final(self)@.exit_chords == old(self)@.exit_chords,
            final(self)@.hint_chars == old(self)@.hint_chars,
            final(self)@.print_only == old(self)@.print_only,
    {
        self.sequence.remove(kstr);
    }

    /// A key was pressed: track it in the chord and the typed prefix, and
    /// decide what happens next.
    ///
    /// The chord first takes the key up, and the key lands in the typed
    /// prefix when it is spelled from the hint alphabet.  Then, in order:
    /// the escape key or a complete exit chord aborts; a chord of several
    /// held keys is not a hint keystroke, so the prefix addition is rolled
    /// back and the engine waits; a prefix spelling a hint exactly selects
    /// that hint's window, to focus or to print; a prefix some hint still
    /// starts with keeps the engine going and asks for a redraw; and a
    /// dead-end prefix is rolled back, aborting the run when no exit chord
    /// is configured (else the user must still be able to press one).
    #[verifier::loop_isolation(false)]
    pub fn handle_key_press(&mut self, kstr: &str) -> (r: KeyAction)
        requires
            old(self).wf(),
        ensures
            final(self).wf(),
            final(self)@.entries == old(self)@.entries,
            final(self)@.exit_chords == old(self)@.exit_chords,
            final(self)@.hint_chars == old(self)@.hint_chars,
            final(self)@.print_only == old(self)@.print_only,
            vstd::relations::sorted_by(final(self)@.chord, crate::sequence::token_order()),
            final(self)@.chord.to_multiset() == old(self)@.chord.to_multiset().insert(kstr@),
            ({
                let pushed = after_push(old(self)@.pressed, old(self)@.hint_chars, kstr@);
                let entries = old(self)@.entries;
                if kstr@ == "Escape"@ || chord_matches(old(self)@.exit_chords, final(self)@.chord) {
                    final(self)@.pressed == pushed && r == KeyAction::Abort
                } else if final(self)@.chord.len() > 1 {
                    final(self)@.pressed == rollback(pushed, kstr@) && r == KeyAction::Wait
                } else if find_hint(entries, pushed) >= 0 {
                    final(self)@.pressed == pushed && r == (if old(self)@.print_only {
                        KeyAction::Print(entries[find_hint(entries, pushed)].1.desktop_window)
                    } else {
                        KeyAction::Focus(entries[find_hint(entries, pushed)].1.desktop_window)
                    })
                } else if pushed.len() > 0 && any_hint_starts_with(entries, pushed) {
                    final(self)@.pressed == pushed && r == KeyAction::Redraw
                } else {
                    final(self)@.pressed == rollback(pushed, kstr@) && r == (if old(
                        self,
                    )@.exit_chords.len() == 0 {
                        KeyAction::Abort
                    } else {
                        KeyAction::Wait
                    })
                }
            }),
    {
        let key = String::from_str(kstr);
        self.sequence.push(key);
        if crate::text::str_contains(self.hint_chars.as_str(), kstr) {
            self.pressed_keys.append(kstr);
        }
        let is_escape = crate::text::str_eq(kstr, "Escape");
        if is_escape || self.chord_in_exit_keys() {
            return KeyAction::Abort;
        }
        if self.sequence.is_started() {
            remove_last_key(&mut self.pressed_keys, kstr);
            return KeyAction::Wait;
        }
        let m = self.render_windows.len();
        let mut i: usize = 0;
        while i < m
            invariant
                m == self.render_windows@.len(),
                i <= m,
                forall|j: int| 0 <= j < i ==> (#[trigger] self@.entries[j]).0 != self@.pressed,
            decreases m - i,
        {
            if crate::text::str_eq(
                self.render_windows[i].0.as_str(),
                self.pressed_keys.as_str(),
            ) {
                proof {
                    assert(self@.entries[i as int].0 == self@.pressed);
                    lemma_find_hint_at(self@.entries, self@.pressed, i as int);
                }
                if self.print_only {
                    return KeyAction::Print(self.render_windows[i].1.desktop_window);
                } else {
                    return KeyAction::Focus(self.render_windows[i].1.desktop_window);
                }
            }
            i = i + 1;
        }
        proof {
            lemma_find_hint_absent(self@.entries, self@.pressed);
        }
        if !self.pressed_keys.as_str().is_empty() {
            let mut k: usize = 0;
            while k < m
                invariant
                    m == self.render_windows@.len(),
                    k <= m,
                    forall|j: int|
                        0 <= j < k ==> !is_prefix_of(self@.pressed, (#[trigger] self@.entries[j]).0),
                decreases m - k,
            {
                if crate::text::str_starts_with(
                    self.render_windows[k].0.as_str(),
                    self.pressed_keys.as_str(),
                ) {
                    proof {
                        assert(is_prefix_of(self@.pressed, self@.entries[k as int].0));
                    }
                    return KeyAction::Redraw;
                }
                k = k + 1;
            }
            proof {
                if any_hint_starts_with(self@.entries, self@.pressed) {
                    let j = choose|j: int|
                        0 <= j < self@.entries.len() && is_prefix_of(
                            self@.pressed,
                            self@.entries[j].0,
                        );
                    assert(!is_prefix_of(self@.pressed, self@.entries[j].0));
                }
            }
        }
        let no_exit_keys = self.exit_keys.len() == 0;
        remove_last_key(&mut self.pressed_keys, kstr);
        if no_exit_keys {
            KeyAction::Abort
        } else {
            KeyAction::Wait
        }
    }
}

} // verus!
