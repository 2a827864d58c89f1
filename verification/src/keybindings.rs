//! Keyboard shortcuts of the reading pane: a fixed set of actions, each bound to one key.

use vstd::prelude::*;

use crate::persistence::KeyBinding;
use crate::schema::opt_str;
use crate::text::{decimal, join, join_texts, push_decimal, same_text, texts};

verus! {

/// What a key can do in the reading pane.
#[derive(Debug, Clone, Copy, PartialEq, Eq, Hash, Structural)]
pub enum Action {
    ScrollDown,
    ScrollUp,
    PageDown,
    PageUp,
    NextChapter,
    PrevChapter,
    ToggleSidebar,
    BackToLibrary,
}

/// The number of actions.
pub const ACTION_COUNT: usize = 8;

/// The Ctrl bit of a key event's modifiers.
pub const CONTROL_MASK: u32 = 4;

/// The Alt bit of a key event's modifiers.
pub const ALT_MASK: u32 = 8;

/// The Shift bit of a key event's modifiers.
pub const SHIFT_MASK: u32 = 1;

/// The bits of Ctrl, Alt and Shift together.
pub const RELEVANT_MASK: u32 = 13;

/// The place of an action among all actions.
pub open spec fn place(a: Action) -> int {
    match a {
        Action::ScrollDown => 0,
        Action::ScrollUp => 1,
        Action::PageDown => 2,
        Action::PageUp => 3,
        Action::NextChapter => 4,
        Action::PrevChapter => 5,
        Action::ToggleSidebar => 6,
        Action::BackToLibrary => 7,
    }
}

/// The action at a place.
pub open spec fn action_at(i: int) -> Action {
    if i == 0 {
        Action::ScrollDown
    } else if i == 1 {
        Action::ScrollUp
    } else if i == 2 {
        Action::PageDown
    } else if i == 3 {
        Action::PageUp
    } else if i == 4 {
        Action::NextChapter
    } else if i == 5 {
        Action::PrevChapter
    } else if i == 6 {
        Action::ToggleSidebar
    } else {
        Action::BackToLibrary
    }
}

/// The name under which an action's shortcut is kept.
pub open spec fn action_id(a: Action) -> Seq<char> {
    match a {
        Action::ScrollDown => "scroll_down"@,
        Action::ScrollUp => "scroll_up"@,
        Action::PageDown => "page_down"@,
        Action::PageUp => "page_up"@,
        Action::NextChapter => "next_chapter"@,
        Action::PrevChapter => "prev_chapter"@,
        Action::ToggleSidebar => "toggle_sidebar"@,
        Action::BackToLibrary => "back_to_library"@,
    }
}

/// The name of an action, as it is shown.
pub open spec fn action_label(a: Action) -> Seq<char> {
    match a {
        Action::ScrollDown => "Scroll down"@,
        Action::ScrollUp => "Scroll up"@,
        Action::PageDown => "Page down"@,
        Action::PageUp => "Page up"@,
        Action::NextChapter => "Next chapter"@,
        Action::PrevChapter => "Previous chapter"@,
        Action::ToggleSidebar => "Toggle sidebar"@,
        Action::BackToLibrary => "Back to library"@,
    }
}

/// The value of the key that an action is bound to unless another is chosen: the arrow keys, Page
/// Down and Page Up, F9 and Escape.
pub open spec fn default_key(a: Action) -> u32 {
    match a {
        Action::ScrollDown => 0xff54,
        Action::ScrollUp => 0xff52,
        Action::PageDown => 0xff56,
        Action::PageUp => 0xff55,
        Action::NextChapter => 0xff53,
        Action::PrevChapter => 0xff51,
        Action::ToggleSidebar => 0xffc6,
        Action::BackToLibrary => 0xff1b,
    }
}

/// The shortcut of an action unless another is chosen.
pub open spec fn default_of(a: Action) -> KeyBinding {
    KeyBinding { keyval: default_key(a), modifiers: 0 }
}

impl Action {
    /// The action at a place.
    pub fn at(i: usize) -> (r: Action)
        ensures
            r == action_at(i as int),
    {
        if i == 0 {
            Action::ScrollDown
        } else if i == 1 {
            Action::ScrollUp
        } else if i == 2 {
            Action::PageDown
        } else if i == 3 {
            Action::PageUp
        } else if i == 4 {
            Action::NextChapter
        } else if i == 5 {
            Action::PrevChapter
        } else if i == 6 {
            Action::ToggleSidebar
        } else {
            Action::BackToLibrary
        }
    }

    fn index(self) -> (r: usize)
        ensures
            r == place(self),
            r < ACTION_COUNT,
            action_at(r as int) == self,
    {
        match self {
            Action::ScrollDown => 0,
            Action::ScrollUp => 1,
            Action::PageDown => 2,
            Action::PageUp => 3,
            Action::NextChapter => 4,
            Action::PrevChapter => 5,
            Action::ToggleSidebar => 6,
            Action::BackToLibrary => 7,
        }
    }

    /// The name under which the action's shortcut is kept.
    pub fn id(self) -> (r: &'static str)
        ensures
            r@ == action_id(self),
    {
        match self {
            Action::ScrollDown => "scroll_down",
            Action::ScrollUp => "scroll_up",
            Action::PageDown => "page_down",
            Action::PageUp => "page_up",
            Action::NextChapter => "next_chapter",
            Action::PrevChapter => "prev_chapter",
            Action::ToggleSidebar => "toggle_sidebar",
            Action::BackToLibrary => "back_to_library",
        }
    }

    /// The name of the action, as it is shown.
    pub fn label(self) -> (r: &'static str)
        ensures
            r@ == action_label(self),
    {
        match self {
            Action::ScrollDown => "Scroll down",
            Action::ScrollUp => "Scroll up",
            Action::PageDown => "Page down",
            Action::PageUp => "Page up",
            Action::NextChapter => "Next chapter",
            Action::PrevChapter => "Previous chapter",
            Action::ToggleSidebar => "Toggle sidebar",
            Action::BackToLibrary => "Back to library",
        }
    }

    /// The shortcut of the action unless another is chosen.
    pub fn default_binding(self) -> (r: KeyBinding)
        ensures
            r == default_of(self),
    {
        let key: u32 = match self {
            Action::ScrollDown => 0xff54,
            Action::ScrollUp => 0xff52,
            Action::PageDown => 0xff56,
            Action::PageUp => 0xff55,
            Action::NextChapter => 0xff53,
            Action::PrevChapter => 0xff51,
            Action::ToggleSidebar => 0xffc6,
            Action::BackToLibrary => 0xff1b,
        };
        KeyBinding { keyval: key, modifiers: 0 }
    }
}

/// The modifier bits that count: those of Ctrl, Alt and Shift.
pub fn relevant_modifiers(modifiers: u32) -> (r: u32)
    ensures
        r == modifiers & RELEVANT_MASK,
{
    modifiers & RELEVANT_MASK
}

/// The shortcut that a key event stands for.
pub open spec fn pressed(key: u32, modifiers: u32) -> KeyBinding {
    KeyBinding { keyval: key, modifiers: modifiers & RELEVANT_MASK }
}

/// The shortcut that a key event stands for.
pub fn binding_for_key(key: u32, modifiers: u32) -> (r: KeyBinding)
    ensures
        r == pressed(key, modifiers),
{
    KeyBinding { keyval: key, modifiers: relevant_modifiers(modifiers) }
}

/// The key only modifies others: Shift, Ctrl, Caps Lock, Meta, Alt, Super or the third-level
/// shift.
pub open spec fn only_modifies(key: u32) -> bool {
    (0xffe1 <= key <= 0xffe5) || (0xffe7 <= key <= 0xffec) || key == 0xfe03
}

/// Whether a key only modifies others, and is no shortcut by itself.
pub fn is_pure_modifier(key: u32) -> (r: bool)
    ensures
        r == only_modifies(key),
{
    (0xffe1 <= key && key <= 0xffe5) || (0xffe7 <= key && key <= 0xffec) || key == 0xfe03
}

/// The parts of a shortcut as it is shown: its modifiers, then its key.
pub open spec fn display_parts(b: KeyBinding, key_name: Option<Seq<char>>) -> Seq<Seq<char>> {
    let ctrl = if b.modifiers & CONTROL_MASK != 0 {
        seq!["Ctrl"@]
    } else {
        Seq::empty()
    };
    let alt = if b.modifiers & ALT_MASK != 0 {
        seq!["Alt"@]
    } else {
        Seq::empty()
    };
    let shift = if b.modifiers & SHIFT_MASK != 0 {
        seq!["Shift"@]
    } else {
        Seq::empty()
    };
    let key = match key_name {
        Some(n) => n,
        None => "Key "@ + decimal(b.keyval as nat),
    };
    ctrl + alt + shift + seq![key]
}

/// A shortcut as it is shown, such as `Ctrl+Right`; `key_name` is the name of its key, if it has
/// one.
pub fn display(binding: KeyBinding, key_name: Option<&str>) -> (r: String)
    ensures
        r@ == join(display_parts(binding, opt_str(key_name)), "+"@),
{
    let mut parts: Vec<String> = Vec::new();
    if binding.modifiers & CONTROL_MASK != 0 {
        parts.push("Ctrl".to_owned());
    }
    if binding.modifiers & ALT_MASK != 0 {
        parts.push("Alt".to_owned());
    }
    if binding.modifiers & SHIFT_MASK != 0 {
        parts.push("Shift".to_owned());
    }
    let key = match key_name {
        Some(n) => n.to_owned(),
        None => {
            let mut s = "Key ".to_owned();
            push_decimal(&mut s, binding.keyval as u64);
            s
        },
    };
    parts.push(key);
    assert(texts(parts@) =~= display_parts(binding, opt_str(key_name)));
    join_texts(&parts, "+")
}

/// The shortcut of each action.
pub struct Bindings {
    pub keys: Vec<KeyBinding>,
}

impl Bindings {
    /// There is a shortcut for each action.
    pub open spec fn wf(&self) -> bool {
        self.keys@.len() == ACTION_COUNT
    }

    /// The shortcut of an action.
    pub open spec fn of(&self, a: Action) -> KeyBinding {
        self.keys@[place(a)]
    }

    /// The shortcut of an action.
    pub fn get(&self, action: Action) -> (r: KeyBinding)
        requires
            self.wf(),
        ensures
            r == self.of(action),
    {
        self.keys[action.index()]
    }
}

/// Each action bound to its default.
pub fn defaults() -> (r: Bindings)
    ensures
        r.wf(),
        forall|a: Action| #[trigger] r.of(a) == default_of(a),
{
    let mut keys: Vec<KeyBinding> = Vec::new();
    let mut i: usize = 0;
    while i < ACTION_COUNT
        invariant
            i <= ACTION_COUNT,
            keys@.len() == i,
            forall|k: int| 0 <= k < i ==> #[trigger] keys@[k] == default_of(action_at(k)),
        decreases ACTION_COUNT - i,
    {
        keys.push(Action::at(i).default_binding());
        i += 1;
    }
    let r = Bindings { keys };
    assert forall|a: Action| #[trigger] r.of(a) == default_of(a) by {
        assert(action_at(place(a)) == a);
    }
    r
}

/// The shortcut kept under this name among the first `n`: the last one counts.
pub open spec fn saved_under(
    saved: Seq<(String, KeyBinding)>,
    id: Seq<char>,
    n: int,
) -> Option<KeyBinding>
    decreases n,
{
    if n <= 0 {
        None
    } else if saved[n - 1].0@ == id {
        Some(saved[n - 1].1)
    } else {
        saved_under(saved, id, n - 1)
    }
}

/// The shortcut of an action: the one that is kept for it, or else its default.
pub open spec fn current(saved: Seq<(String, KeyBinding)>, a: Action) -> KeyBinding {
    match saved_under(saved, action_id(a), saved.len() as int) {
        Some(b) => b,
        None => default_of(a),
    }
}

fn current_binding(saved: &Vec<(String, KeyBinding)>, action: Action) -> (r: KeyBinding)
    ensures
        r == current(saved@, action),
{
    let mut n: usize = saved.len();
    while n > 0
        invariant
            n <= saved@.len(),
            saved_under(saved@, action_id(action), saved@.len() as int) == saved_under(
                saved@,
                action_id(action),
                n as int,
            ),
        decreases n,
    {
        if same_text(saved[n - 1].0.as_str(), action.id()) {
            return saved[n - 1].1;
        }
        n -= 1;
    }
    action.default_binding()
}

/// The shortcuts of all actions, where these are kept.
pub fn load(saved: &Vec<(String, KeyBinding)>) -> (r: Bindings)
    ensures
        r.wf(),
        forall|a: Action| #[trigger] r.of(a) == current(saved@, a),
{
    let mut keys: Vec<KeyBinding> = Vec::new();
    let mut i: usize = 0;
    while i < ACTION_COUNT
        invariant
            i <= ACTION_COUNT,
            keys@.len() == i,
            forall|k: int| 0 <= k < i ==> #[trigger] keys@[k] == current(saved@, action_at(k)),
        decreases ACTION_COUNT - i,
    {
        keys.push(current_binding(saved, Action::at(i)));
        i += 1;
    }
    let r = Bindings { keys };
    assert forall|a: Action| #[trigger] r.of(a) == current(saved@, a) by {
        assert(action_at(place(a)) == a);
    }
    r
}

/// The shortcut kept under this name goes to `action` with `binding`: it is the action's own, or
/// that of an action that held the same shortcut.
pub open spec fn is_dropped(
    saved: Seq<(String, KeyBinding)>,
    id: Seq<char>,
    action: Action,
    binding: KeyBinding,
) -> bool {
    exists|other: Action| #[trigger]
        action_id(other) == id && (other == action || current(saved, other) == binding)
}

/// What is kept under a name after `action` was bound to `binding`.
pub open spec fn kept_after(
    saved: Seq<(String, KeyBinding)>,
    id: Seq<char>,
    action: Action,
    binding: KeyBinding,
) -> Option<KeyBinding> {
    if id == action_id(action) {
        Some(binding)
    } else if is_dropped(saved, id, action, binding) {
        None
    } else {
        saved_under(saved, id, saved.len() as int)
    }
}

fn dropped(
    saved: &Vec<(String, KeyBinding)>,
    id: &str,
    action: Action,
    binding: KeyBinding,
) -> (r: bool)
    ensures
        r == is_dropped(saved@, id@, action, binding),
{
    let mut i: usize = 0;
    while i < ACTION_COUNT
        invariant
            i <= ACTION_COUNT,
            forall|k: int|
                0 <= k < i ==> !(action_id(#[trigger] action_at(k)) == id@ && (action_at(k) == action
                    || current(saved@, action_at(k)) == binding)),
        decreases ACTION_COUNT - i,
    {
        let other = Action::at(i);
        if same_text(other.id(), id) && (other == action || current_binding(saved, other)
            == binding) {
            assert(action_id(other) == id@);
            return true;
        }
        i += 1;
    }
    assert forall|other: Action| #[trigger] action_id(other) == id@ implies !(other == action
        || current(saved@, other) == binding) by {
        assert(action_at(place(other)) == other);
        assert(0 <= place(other) < ACTION_COUNT);
    }
    false
}

/// Keeps a new shortcut for an action. Another action that holds the same shortcut loses what is
/// kept for it, and falls back to its default.
pub fn save(saved: &Vec<(String, KeyBinding)>, action: Action, binding: KeyBinding) -> (r: Vec<
    (String, KeyBinding),
>)
    ensures
        forall|id: Seq<char>| #[trigger]
            saved_under(r@, id, r@.len() as int) == kept_after(saved@, id, action, binding),
{
    let mut out: Vec<(String, KeyBinding)> = Vec::new();
    let mut i: usize = 0;
    while i < saved.len()
        invariant
            i <= saved@.len(),
            forall|id: Seq<char>| #[trigger]
                saved_under(out@, id, out@.len() as int) == (if is_dropped(
                    saved@,
                    id,
                    action,
                    binding,
                ) {
                    None
                } else {
                    saved_under(saved@, id, i as int)
                }),
        decreases saved@.len() - i,
    {
        let ghost before = out@;
        let entry = &saved[i];
        if !dropped(saved, entry.0.as_str(), action, binding) {
            out.push((entry.0.clone(), entry.1));
            proof {
                lemma_saved_push(before, out@[out@.len() - 1]);
            }
        }
        i += 1;
    }
    let ghost before = out@;
    out.push((action.id().to_owned(), binding));
    proof {
        lemma_saved_push(before, out@[out@.len() - 1]);
        assert(action_id(action) == out@[out@.len() - 1].0@);
        assert forall|id: Seq<char>| #[trigger]
            saved_under(out@, id, out@.len() as int) == kept_after(saved@, id, action, binding) by {
            if id != action_id(action) {
                assert(saved_under(out@, id, out@.len() as int) == saved_under(
                    before,
                    id,
                    before.len() as int,
                ));
            }
        }
    }
    out
}

proof fn lemma_saved_push(saved: Seq<(String, KeyBinding)>, e: (String, KeyBinding))
    ensures
        forall|id: Seq<char>| #[trigger]
            saved_under(saved.push(e), id, (saved.len() + 1) as int) == (if e.0@ == id {
                Some(e.1)
            } else {
                saved_under(saved, id, saved.len() as int)
            }),
{
    assert forall|id: Seq<char>| #[trigger]
        saved_under(saved.push(e), id, (saved.len() + 1) as int) == (if e.0@ == id {
            Some(e.1)
        } else {
            saved_under(saved, id, saved.len() as int)
        }) by {
        lemma_saved_prefix(saved, e, id, saved.len() as int);
    }
}

proof fn lemma_saved_prefix(
    saved: Seq<(String, KeyBinding)>,
    e: (String, KeyBinding),
    id: Seq<char>,
    n: int,
)
    requires
        n <= saved.len(),
    ensures
        saved_under(saved.push(e), id, n) == saved_under(saved, id, n),
    decreases n,
{
    if n > 0 {
        lemma_saved_prefix(saved, e, id, n - 1);
    }
}

/// The shortcut of an action after a key was bound: an action that had the key falls back to its
/// default.
pub open spec fn rebound(
    before: Bindings,
    action: Action,
    binding: KeyBinding,
    a: Action,
) -> KeyBinding {
    if a == action {
        binding
    } else if before.of(a) == binding {
        default_of(a)
    } else {
        before.of(a)
    }
}

/// Binds an action to a shortcut. Another action that holds the same shortcut falls back to its
/// default.
pub fn apply(bindings: &mut Bindings, action: Action, binding: KeyBinding)
    requires
        old(bindings).wf(),
    ensures
        final(bindings).wf(),
        forall|a: Action| #[trigger]
            final(bindings).of(a) == rebound(*old(bindings), action, binding, a),
{
    let ghost before = bindings.keys@;
    let mut i: usize = 0;
    while i < ACTION_COUNT
        invariant
            i <= ACTION_COUNT,
            before.len() == ACTION_COUNT,
            bindings.keys@.len() == ACTION_COUNT,
            forall|k: int|
                0 <= k < ACTION_COUNT ==> #[trigger] bindings.keys@[k] == (if k < i && action_at(k)
                    != action && before[k] == binding {
                    default_of(action_at(k))
                } else {
                    before[k]
                }),
        decreases ACTION_COUNT - i,
    {
        let other = Action::at(i);
        if other != action && bindings.keys[i] == binding {
            bindings.keys.set(i, other.default_binding());
        }
        i += 1;
    }
    bindings.keys.set(action.index(), binding);
    assert forall|a: Action| #[trigger]
        bindings.of(a) == rebound(*old(bindings), action, binding, a) by {
        assert(action_at(place(a)) == a);
        assert(action_at(place(action)) == action);
        assert(a != action ==> place(a) != place(action));
    }
}

/// The action that a key event calls for: of several bound to it, the first.
pub fn action_for_key(bindings: &Bindings, key: u32, modifiers: u32) -> (r: Option<Action>)
    requires
        bindings.wf(),
    ensures
        match r {
            Some(a) => bindings.of(a) == pressed(key, modifiers) && forall|b: Action| #[trigger]
                place(b) < place(a) ==> bindings.of(b) != pressed(key, modifiers),
            None => forall|b: Action| #[trigger] bindings.of(b) != pressed(key, modifiers),
        },
{
    let wanted = binding_for_key(key, modifiers);
    let mut i: usize = 0;
    while i < ACTION_COUNT
        invariant
            i <= ACTION_COUNT,
            bindings.wf(),
            wanted == pressed(key, modifiers),
            forall|k: int| 0 <= k < i ==> #[trigger] bindings.keys@[k] != wanted,
        decreases ACTION_COUNT - i,
    {
        if bindings.keys[i] == wanted {
            let a = Action::at(i);
            assert(place(a) == i);
            return Some(a);
        }
        i += 1;
    }
    assert forall|b: Action| #[trigger] bindings.of(b) != pressed(key, modifiers) by {
        assert(0 <= place(b) < ACTION_COUNT);
    }
    None
}

/// The Escape key.
pub const ESCAPE: u32 = 0xff1b;

/// The page on which shortcuts are changed.
pub struct ShortcutsPage {
    pub bindings: Bindings,
    /// The action that waits for a key.
    pub remapping: Option<Action>,
}

/// What a key does on the page on which shortcuts are changed.
#[derive(Debug, Clone, Copy, PartialEq, Eq, Structural)]
pub enum Remap {
    /// No action waits for a key.
    NotRemapping,
    /// The action keeps the key that it has.
    Cancelled,
    /// The key only modifies others, so the action still waits.
    Waiting,
    /// The action has a new key, which is to be saved.
    Bound(Action, KeyBinding),
}

impl ShortcutsPage {
    /// Waits for a key for an action.
    pub fn start(&mut self, action: Action)
        ensures
            final(self).bindings == old(self).bindings,
            final(self).remapping == Some(action),
    {
        self.remapping = Some(action);
    }

    /// Takes a key for the action that waits for one. Escape leaves everything as it is.
    pub fn press(&mut self, key: u32, modifiers: u32) -> (r: Remap)
        requires
            old(self).bindings.wf(),
        ensures
            final(self).bindings.wf(),
            r == (match old(self).remapping {
                None => Remap::NotRemapping,
                Some(action) => if key == ESCAPE {
                    Remap::Cancelled
                } else if only_modifies(key) {
                    Remap::Waiting
                } else {
                    Remap::Bound(action, pressed(key, modifiers))
                },
            }),
            final(self).remapping == (if r == Remap::Waiting {
                old(self).remapping
            } else {
                None
            }),
            match r {
                Remap::Bound(action, binding) => forall|a: Action| #[trigger]
                    final(self).bindings.of(a) == rebound(old(self).bindings, action, binding, a),
                _ => final(self).bindings == old(self).bindings,
            },
    {
        match self.remapping {
            None => Remap::NotRemapping,
            Some(action) => {
                if key == ESCAPE {
                    self.remapping = None;
                    return Remap::Cancelled;
                }
                if is_pure_modifier(key) {
                    return Remap::Waiting;
                }
                let binding = binding_for_key(key, modifiers);
                apply(&mut self.bindings, action, binding);
                self.remapping = None;
                Remap::Bound(action, binding)
            },
        }
    }
}

/// No two actions have the same default.
pub proof fn defaults_are_distinct(a: Action, b: Action)
    requires
        a != b,
    ensures
        default_of(a) != default_of(b),
{
}

/// Binding an action gives it the shortcut, and whichever other action still has that shortcut
/// has it as its default.
pub proof fn a_shortcut_is_stolen(
    before: Bindings,
    after: Bindings,
    action: Action,
    binding: KeyBinding,
    other: Action,
)
    requires
        forall|a: Action| #[trigger] after.of(a) == rebound(before, action, binding, a),
    ensures
        after.of(action) == binding,
        other != action && after.of(other) == binding ==> default_of(other) == binding,
{
}

/// What is kept for one action is what is loaded for it, and the shortcut of any other action
/// changes only if it was the same, in which case it becomes the default.
pub proof fn saved_shortcuts_are_loaded(
    saved: Seq<(String, KeyBinding)>,
    after: Seq<(String, KeyBinding)>,
    action: Action,
    binding: KeyBinding,
    other: Action,
)
    requires
        forall|id: Seq<char>| #[trigger]
            saved_under(after, id, after.len() as int) == kept_after(saved, id, action, binding),
    ensures
        current(after, action) == binding,
        other != action && current(saved, other) != binding ==> current(after, other) == current(
            saved,
            other,
        ),
        other != action && current(saved, other) == binding ==> current(after, other) == default_of(
            other,
        ),
{
    lemma_ids_are_distinct(action, other);
    if other != action && current(saved, other) != binding {
        assert(!is_dropped(saved, action_id(other), action, binding)) by {
            assert forall|x: Action| #[trigger] action_id(x) == action_id(other) implies x == other by {
                lemma_ids_are_distinct(x, other);
            }
        }
    } else if other != action {
        assert(action_id(other) == action_id(other));
    }
}

/// No two actions are kept under the same name.
proof fn lemma_ids_are_distinct(a: Action, b: Action)
    ensures
        a != b ==> action_id(a) != action_id(b),
{
    reveal_strlit("scroll_down");
    reveal_strlit("scroll_up");
    reveal_strlit("page_down");
    reveal_strlit("page_up");
    reveal_strlit("next_chapter");
    reveal_strlit("prev_chapter");
    reveal_strlit("toggle_sidebar");
    reveal_strlit("back_to_library");
    assert("scroll_down"@.len() == 11 && "scroll_up"@.len() == 9 && "page_down"@.len() == 9);
    assert("page_up"@.len() == 7 && "next_chapter"@.len() == 12 && "prev_chapter"@.len() == 12);
    assert("toggle_sidebar"@.len() == 14 && "back_to_library"@.len() == 15);
    assert("next_chapter"@[0] == 'n' && "prev_chapter"@[0] == 'p');
    assert("scroll_up"@[0] == 's' && "page_down"@[0] == 'p');
}

} // verus!
