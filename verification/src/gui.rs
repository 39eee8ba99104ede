//! What the interactive shell and the library say to each other: the
//! messages of the shell, what each message does to the state of the
//! shell, and the steps of opening a mod.
//!
//! The shell itself draws, waits and starts tasks. What a message changes
//! and which task it asks for is decided here.

pub mod tasks;

use crate::datum::Datum;
use crate::unpack::{ModOption, ModOptionView, ModReader};
use vstd::prelude::*;

verus! {

/// An entry of the log.
#[derive(Debug)]
pub struct Entry {
    pub timestamp: String,
    pub level: String,
    pub args: String,
}

/// The mathematical value of a log entry.
pub struct EntryView {
    pub timestamp: Seq<char>,
    pub level: Seq<char>,
    pub args: Seq<char>,
}

impl DeepView for Entry {
    type V = EntryView;

    open spec fn deep_view(&self) -> EntryView {
        EntryView { timestamp: self.timestamp@, level: self.level@, args: self.args@ }
    }
}

/// A mod as the shell lists it.
#[derive(Debug)]
pub struct Mod {
    /// Where the packaged mod lies.
    pub path: String,
    /// Whether the mod is switched on.
    pub enabled: bool,
    /// The options that the mod was opened with.
    pub options: Vec<ModOption>,
}

/// The mathematical value of a listed mod.
pub struct ModView {
    pub path: Seq<char>,
    pub enabled: bool,
    pub options: Seq<ModOptionView>,
}

impl DeepView for Mod {
    type V = ModView;

    open spec fn deep_view(&self) -> ModView {
        ModView { path: self.path@, enabled: self.enabled, options: self.options.deep_view() }
    }
}

impl Datum for Mod {
    fn same(&self, other: &Self) -> (r: bool) {
        self.path == other.path && self.enabled == other.enabled && self.options.same(
            &other.options,
        )
    }

    fn dup(&self) -> (r: Self) {
        Mod { path: self.path.clone(), enabled: self.enabled, options: self.options.dup() }
    }
}

impl Mod {
    /// The mod that `reader` has open, not yet switched on.
    pub fn from_reader(reader: ModReader) -> (r: Self)
        ensures
            r.deep_view() == (ModView {
                path: reader.path_view(),
                enabled: false,
                options: reader.options_view(),
            }),
    {
        let path = reader.host_path().to_owned();
        Mod { path, enabled: false, options: reader.into_options() }
    }
}

/// The pane of the shell that has the keyboard.
#[derive(Debug, Clone, Copy, PartialEq, Eq, Structural)]
pub enum FocusedPane {
    ModList,
    FilePicker,
    /// Neither pane.
    Neither,
}

/// What the parts of the shell tell its main loop.
#[derive(Debug)]
pub enum Message {
    Log(Entry),
    CloseError,
    SelectOnly(usize),
    SelectAlso(usize),
    Deselect(usize),
    ClearSelect,
    StartDrag(usize),
    ClearDrag,
    MoveSelected(usize),
    FilePickerUp,
    FilePickerBack,
    FilePickerSet(Option<String>),
    ChangeProfile(String),
    SetFocus(FocusedPane),
    OpenMod(String),
    HandleMod(Mod),
    RequestOptions(Mod),
    InstallMod(Mod),
    AddMod(Mod),
    Error(String),
}

/// The mathematical value of a message.
pub enum MessageView {
    Log(EntryView),
    CloseError,
    SelectOnly(usize),
    SelectAlso(usize),
    Deselect(usize),
    ClearSelect,
    StartDrag(usize),
    ClearDrag,
    MoveSelected(usize),
    FilePickerUp,
    FilePickerBack,
    FilePickerSet(Option<Seq<char>>),
    ChangeProfile(Seq<char>),
    SetFocus(FocusedPane),
    OpenMod(Seq<char>),
    HandleMod(ModView),
    RequestOptions(ModView),
    InstallMod(ModView),
    AddMod(ModView),
    Error(Seq<char>),
}

impl DeepView for Message {
    type V = MessageView;

    open spec fn deep_view(&self) -> MessageView {
        match self {
            Message::Log(e) => MessageView::Log(e.deep_view()),
            Message::CloseError => MessageView::CloseError,
            Message::SelectOnly(i) => MessageView::SelectOnly(*i),
            Message::SelectAlso(i) => MessageView::SelectAlso(*i),
            Message::Deselect(i) => MessageView::Deselect(*i),
            Message::ClearSelect => MessageView::ClearSelect,
            Message::StartDrag(i) => MessageView::StartDrag(*i),
            Message::ClearDrag => MessageView::ClearDrag,
            Message::MoveSelected(i) => MessageView::MoveSelected(*i),
            Message::FilePickerUp => MessageView::FilePickerUp,
            Message::FilePickerBack => MessageView::FilePickerBack,
            Message::FilePickerSet(p) => MessageView::FilePickerSet(p.deep_view()),
            Message::ChangeProfile(p) => MessageView::ChangeProfile(p@),
            Message::SetFocus(p) => MessageView::SetFocus(*p),
            Message::OpenMod(p) => MessageView::OpenMod(p@),
            Message::HandleMod(m) => MessageView::HandleMod(m.deep_view()),
            Message::RequestOptions(m) => MessageView::RequestOptions(m.deep_view()),
            Message::InstallMod(m) => MessageView::InstallMod(m.deep_view()),
            Message::AddMod(m) => MessageView::AddMod(m.deep_view()),
            Message::Error(e) => MessageView::Error(e@),
        }
    }
}

/// Where the file picker stands.
#[derive(Debug)]
pub struct FilePickerState {
    /// The folder that is shown.
    pub path: String,
    /// The folders that were shown before, the last one last.
    pub history: Vec<String>,
    /// The file that is picked.
    pub selected: Option<String>,
    /// What the user has typed as a path.
    pub path_input: String,
}

/// The mathematical value of the file picker's state.
pub struct PickerView {
    pub path: Seq<char>,
    pub history: Seq<Seq<char>>,
    pub selected: Option<Seq<char>>,
    pub path_input: Seq<char>,
}

impl DeepView for FilePickerState {
    type V = PickerView;

    open spec fn deep_view(&self) -> PickerView {
        PickerView {
            path: self.path@,
            history: self.history.deep_view(),
            selected: self.selected.deep_view(),
            path_input: self.path_input@,
        }
    }
}

/// What the shell keeps between two messages.
#[derive(Debug)]
pub struct AppState {
    /// The mods of the profile, in load order.
    pub mods: Vec<Mod>,
    /// The mods that are selected, in the order in which they were.
    pub selected: Vec<Mod>,
    /// The place of the mod that is dragged.
    pub drag_index: Option<usize>,
    /// The place that the dragged mod hovers over.
    pub hover_index: Option<usize>,
    pub picker_state: FilePickerState,
    pub focused: FocusedPane,
    pub logs: Vec<Entry>,
    /// The failure that is shown.
    pub error: Option<String>,
    /// Whether a task runs.
    pub busy: bool,
}

/// The mathematical value of the shell's state.
pub struct StateView {
    pub mods: Seq<ModView>,
    pub selected: Seq<ModView>,
    pub drag_index: Option<usize>,
    pub hover_index: Option<usize>,
    pub picker: PickerView,
    pub focused: FocusedPane,
    pub logs: Seq<EntryView>,
    pub error: Option<Seq<char>>,
    pub busy: bool,
}

impl DeepView for AppState {
    type V = StateView;

    open spec fn deep_view(&self) -> StateView {
        StateView {
            mods: self.mods.deep_view(),
            selected: self.selected.deep_view(),
            drag_index: self.drag_index,
            hover_index: self.hover_index,
            picker: self.picker_state.deep_view(),
            focused: self.focused,
            logs: self.logs.deep_view(),
            error: self.error.deep_view(),
            busy: self.busy,
        }
    }
}

/// What the shell knows of the world when a message comes.
#[derive(Debug, Clone, Copy, PartialEq, Eq, Structural)]
pub struct Facts {
    /// Whether the control key is down.
    pub ctrl: bool,
    /// Whether the path that the file picker is sent to is a folder.
    pub target_is_dir: bool,
}

/// What the shell is to do after a message.
#[derive(Debug)]
pub enum Action {
    /// Nothing but drawing.
    Nothing,
    /// Start the task that opens the mod at the path.
    OpenMod(String),
    /// Start the task that installs the mod.
    Install(Mod),
    /// Put the message into the queue.
    Send(Message),
}

/// The mathematical value of an action.
pub enum ActionView {
    Nothing,
    OpenMod(Seq<char>),
    Install(ModView),
    Send(MessageView),
}

impl DeepView for Action {
    type V = ActionView;

    open spec fn deep_view(&self) -> ActionView {
        match self {
            Action::Nothing => ActionView::Nothing,
            Action::OpenMod(p) => ActionView::OpenMod(p@),
            Action::Install(m) => ActionView::Install(m.deep_view()),
            Action::Send(m) => ActionView::Send(m.deep_view()),
        }
    }
}

/// What a message came to: what the shell is to do, and whether it is to
/// draw anew.
#[derive(Debug)]
pub struct Outcome {
    pub action: Action,
    pub repaint: bool,
}

/// The test for a value that is `x`.
pub open spec fn is_value<A>(x: A) -> spec_fn(A) -> bool {
    |a: A| a == x
}

/// The test for a value that is not `x`.
pub open spec fn is_other<A>(x: A) -> spec_fn(A) -> bool {
    |a: A| a != x
}

/// The test for a value that is none of `set`.
pub open spec fn is_outside<A>(set: Seq<A>) -> spec_fn(A) -> bool {
    |a: A| !set.contains(a)
}

/// The place that a click on the place `i` of `len` mods means.
pub open spec fn clamped(i: usize, len: nat) -> int {
    if i as int > len - 1 {
        len - 1
    } else {
        i as int
    }
}

/// The folder that lies above `path`: what stands in front of the last
/// slash that has a name behind it, without the slashes at its end. A
/// single name has the empty path above it, a name right under the root has
/// the root, and the root and the empty path have nothing.
pub open spec fn parent_of(path: Seq<char>) -> Option<Seq<char>> {
    let t = crate::resource::trimmed(path);
    let k = crate::resource::last_index(t, '/');
    if t.len() == 0 {
        None
    } else if k < 0 {
        Some(Seq::empty())
    } else {
        let up = crate::resource::trimmed(t.take(k));
        if up.len() == 0 {
            Some(seq!['/'])
        } else {
            Some(up)
        }
    }
}

/// The file picker, sent to `path`.
pub open spec fn picker_at(p: PickerView, path: Seq<char>) -> PickerView {
    PickerView { path, path_input: path, ..p }
}

/// Whether a message can be handled: a change of profile and a request
/// for options cannot, a click must fall on a list that has mods, a drag
/// must start on a mod, and selected mods must be moved to a place among
/// the others.
pub open spec fn can_handle(s: StateView, m: MessageView) -> bool {
    match m {
        MessageView::ChangeProfile(_) => false,
        MessageView::RequestOptions(_) => false,
        MessageView::SelectOnly(_) => s.mods.len() > 0,
        MessageView::SelectAlso(_) => s.mods.len() > 0,
        MessageView::Deselect(_) => s.mods.len() > 0,
        MessageView::StartDrag(i) => i < s.mods.len(),
        MessageView::MoveSelected(dest) => s.selected.len() == s.mods.len() || dest
            <= s.mods.filter(is_outside(s.selected)).len(),
        _ => true,
    }
}

/// The state after a message.
pub open spec fn state_after(s: StateView, m: MessageView, f: Facts) -> StateView {
    match m {
        MessageView::Log(e) => StateView { logs: s.logs.push(e), ..s },
        MessageView::CloseError => StateView { error: None, ..s },
        MessageView::SelectOnly(i) => {
            let x = s.mods[clamped(i, s.mods.len())];
            StateView {
                selected: if s.selected.contains(x) {
                    s.selected.filter(is_value(x))
                } else {
                    seq![x]
                },
                drag_index: None,
                ..s
            }
        },
        MessageView::SelectAlso(i) => {
            let x = s.mods[clamped(i, s.mods.len())];
            StateView {
                selected: if s.selected.contains(x) {
                    s.selected
                } else {
                    s.selected.push(x)
                },
                drag_index: None,
                ..s
            }
        },
        MessageView::Deselect(i) => {
            let x = s.mods[clamped(i, s.mods.len())];
            StateView { selected: s.selected.filter(is_other(x)), drag_index: None, ..s }
        },
        MessageView::ClearSelect => StateView { selected: Seq::empty(), drag_index: None, ..s },
        MessageView::StartDrag(i) => {
            let x = s.mods[i as int];
            StateView {
                selected: if s.selected.contains(x) {
                    s.selected
                } else if f.ctrl {
                    s.selected.push(x)
                } else {
                    seq![x]
                },
                drag_index: Some(i),
                ..s
            }
        },
        MessageView::ClearDrag => StateView { drag_index: None, ..s },
        MessageView::MoveSelected(dest) => if s.selected.len() == s.mods.len() {
            s
        } else {
            let rest = s.mods.filter(is_outside(s.selected));
            StateView {
                mods: rest.take(dest as int) + s.selected + rest.skip(dest as int),
                hover_index: None,
                drag_index: None,
                ..s
            }
        },
        MessageView::FilePickerUp => match parent_of(s.picker.path) {
            Some(up) => StateView {
                picker: picker_at(
                    PickerView { history: s.picker.history.push(s.picker.path), ..s.picker },
                    up,
                ),
                ..s
            },
            None => s,
        },
        MessageView::FilePickerBack => if s.picker.history.len() > 0 {
            StateView {
                picker: picker_at(
                    PickerView { history: s.picker.history.drop_last(), ..s.picker },
                    s.picker.history.last(),
                ),
                ..s
            }
        } else {
            s
        },
        MessageView::FilePickerSet(p) => if f.target_is_dir {
            StateView {
                picker: picker_at(
                    PickerView {
                        selected: None,
                        history: s.picker.history.push(s.picker.path),
                        ..s.picker
                    },
                    match p {
                        Some(path) => path,
                        None => s.picker.path_input,
                    },
                ),
                ..s
            }
        } else {
            s
        },
        MessageView::ChangeProfile(_) => s,
        MessageView::SetFocus(pane) => StateView { focused: pane, ..s },
        MessageView::OpenMod(_) => StateView { busy: true, ..s },
        MessageView::HandleMod(_) => StateView { busy: false, ..s },
        MessageView::RequestOptions(_) => s,
        MessageView::InstallMod(_) => StateView { busy: true, ..s },
        MessageView::AddMod(x) => StateView { busy: false, mods: s.mods.push(x), ..s },
        MessageView::Error(e) => StateView { busy: false, error: Some(e), ..s },
    }
}

/// What the shell is to do after a message.
pub open spec fn action_after(m: MessageView) -> ActionView {
    match m {
        MessageView::OpenMod(path) => ActionView::OpenMod(path),
        MessageView::HandleMod(x) => if x.options.len() > 0 {
            ActionView::Send(MessageView::RequestOptions(x))
        } else {
            ActionView::Send(MessageView::InstallMod(x))
        },
        MessageView::InstallMod(x) => ActionView::Install(x),
        _ => ActionView::Nothing,
    }
}

/// Whether the shell is to draw anew after a message: always, but where
/// every mod is selected and asked to move.
pub open spec fn repaint_after(s: StateView, m: MessageView) -> bool {
    match m {
        MessageView::MoveSelected(_) => s.selected.len() != s.mods.len(),
        _ => true,
    }
}

/// Whether `x` is among `items`.
pub fn holds<T: Datum>(items: &Vec<T>, x: &T) -> (r: bool)
    ensures
        r == items.deep_view().contains(x.deep_view()),
{
    let mut i: usize = 0;
    while i < items.len()
        invariant
            i <= items.len(),
            forall|j: int| 0 <= j < i ==> items.deep_view()[j] != x.deep_view(),
        decreases items.len() - i,
    {
        if items[i].same(x) {
            assert(items.deep_view()[i as int] == x.deep_view());
            return true;
        }
        i = i + 1;
    }
    false
}

/// The items that are `x`, or with `keep` false the items that are not.
fn sifted<T: Datum>(items: &Vec<T>, x: &T, keep: bool) -> (out: Vec<T>)
    ensures
        out.deep_view() == if keep {
            items.deep_view().filter(is_value(x.deep_view()))
        } else {
            items.deep_view().filter(is_other(x.deep_view()))
        },
{
    let mut out: Vec<T> = Vec::new();
    let mut i: usize = 0;
    let ghost s = items.deep_view();
    let ghost p = if keep {
        is_value(x.deep_view())
    } else {
        is_other(x.deep_view())
    };
    proof {
        reveal(Seq::filter);
        assert(out.deep_view() =~= s.take(0).filter(p));
    }
    while i < items.len()
        invariant
            i <= items.len(),
            s == items.deep_view(),
            p == if keep {
                is_value(x.deep_view())
            } else {
                is_other(x.deep_view())
            },
            out.deep_view() == s.take(i as int).filter(p),
        decreases items.len() - i,
    {
        proof {
            assert(s.take(i + 1) =~= s.take(i as int).push(s[i as int]));
            s.take(i as int).lemma_filter_push(s[i as int], p);
        }
        if items[i].same(x) == keep {
            let ghost before = out.deep_view();
            out.push(items[i].dup());
            proof {
                assert(out.deep_view() =~= before.push(s[i as int]));
            }
        }
        i = i + 1;
    }
    proof {
        assert(s.take(i as int) =~= s);
    }
    out
}

/// The items that are none of `set`.
fn outside<T: Datum>(items: &Vec<T>, set: &Vec<T>) -> (out: Vec<T>)
    ensures
        out.deep_view() == items.deep_view().filter(is_outside(set.deep_view())),
{
    let mut out: Vec<T> = Vec::new();
    let mut i: usize = 0;
    let ghost s = items.deep_view();
    let ghost p = is_outside(set.deep_view());
    proof {
        reveal(Seq::filter);
        assert(out.deep_view() =~= s.take(0).filter(p));
    }
    while i < items.len()
        invariant
            i <= items.len(),
            s == items.deep_view(),
            p == is_outside(set.deep_view()),
            out.deep_view() == s.take(i as int).filter(p),
        decreases items.len() - i,
    {
        proof {
            assert(s.take(i + 1) =~= s.take(i as int).push(s[i as int]));
            s.take(i as int).lemma_filter_push(s[i as int], p);
        }
        if !holds(set, &items[i]) {
            let ghost before = out.deep_view();
            out.push(items[i].dup());
            proof {
                assert(out.deep_view() =~= before.push(s[i as int]));
            }
        }
        i = i + 1;
    }
    proof {
        assert(s.take(i as int) =~= s);
    }
    out
}

/// `rest` with `moved` put in at the place `dest`.
fn spliced<T: Datum>(rest: &Vec<T>, moved: &Vec<T>, dest: usize) -> (out: Vec<T>)
    requires
        dest <= rest.len(),
    ensures
        out.deep_view() == rest.deep_view().take(dest as int) + moved.deep_view()
            + rest.deep_view().skip(dest as int),
{
    let mut out: Vec<T> = Vec::new();
    let mut i: usize = 0;
    let ghost r = rest.deep_view();
    let ghost m = moved.deep_view();
    while i < dest
        invariant
            i <= dest <= rest.len(),
            r == rest.deep_view(),
            out.len() == i,
            forall|j: int| 0 <= j < i ==> #[trigger] out.deep_view()[j] == r[j],
        decreases dest - i,
    {
        let ghost before = out.deep_view();
        out.push(rest[i].dup());
        proof {
            assert(out.deep_view() =~= before.push(r[i as int]));
        }
        i = i + 1;
    }
    proof {
        assert(out.deep_view() =~= r.take(dest as int) + m.take(0));
    }
    let mut k: usize = 0;
    while k < moved.len()
        invariant
            k <= moved.len(),
            dest <= rest.len(),
            r == rest.deep_view(),
            m == moved.deep_view(),
            out.deep_view() == r.take(dest as int) + m.take(k as int),
        decreases moved.len() - k,
    {
        let ghost before = out.deep_view();
        out.push(moved[k].dup());
        proof {
            assert(out.deep_view() =~= before.push(m[k as int]));
            assert(m.take(k + 1) =~= m.take(k as int).push(m[k as int]));
            assert(out.deep_view() =~= r.take(dest as int) + m.take(k + 1));
        }
        k = k + 1;
    }
    let mut j: usize = dest;
    proof {
        assert(m.take(moved.len() as int) =~= m);
        assert(r.subrange(dest as int, dest as int) =~= Seq::empty());
        assert(out.deep_view() =~= r.take(dest as int) + m + r.subrange(dest as int, dest as int));
    }
    while j < rest.len()
        invariant
            dest <= j <= rest.len(),
            r == rest.deep_view(),
            m == moved.deep_view(),
            out.deep_view() == r.take(dest as int) + m + r.subrange(dest as int, j as int),
        decreases rest.len() - j,
    {
        let ghost before = out.deep_view();
        out.push(rest[j].dup());
        proof {
            assert(out.deep_view() =~= before.push(r[j as int]));
            assert(r.subrange(dest as int, j + 1) =~= r.subrange(dest as int, j as int).push(
                r[j as int],
            ));
        }
        j = j + 1;
    }
    proof {
        assert(r.subrange(dest as int, rest.len() as int) =~= r.skip(dest as int));
    }
    out
}

/// The folder that lies above `path`.
pub fn parent(path: &str) -> (r: Option<String>)
    ensures
        r.deep_view() == parent_of(path@),
{
    let chars = crate::text::to_chars(path);
    let mut end: usize = chars.len();
    while end > 0 && chars[end - 1] == '/'
        invariant
            end <= chars.len(),
            forall|j: int| end <= j < chars.len() ==> chars@[j] == '/',
        decreases end,
    {
        end = end - 1;
    }
    proof {
        crate::resource::lemma_trimmed(chars@, end as int);
    }
    if end == 0 {
        return None;
    }
    match crate::resource::find_last(&chars, end, '/') {
        None => Some(String::new()),
        Some(k) => {
            let mut stop: usize = k;
            while stop > 0 && chars[stop - 1] == '/'
                invariant
                    stop <= k < end <= chars.len(),
                    forall|j: int| stop <= j < k ==> chars@[j] == '/',
                decreases stop,
            {
                stop = stop - 1;
            }
            proof {
                let t = chars@.take(end as int);
                assert(t.take(k as int) =~= chars@.take(k as int));
                crate::resource::lemma_trimmed(chars@.take(k as int), stop as int);
                assert(chars@.take(k as int).take(stop as int) =~= chars@.take(stop as int));
            }
            let mut out: Vec<char> = Vec::new();
            if stop == 0 {
                out.push('/');
                proof {
                    assert(out@ =~= seq!['/']);
                }
            } else {
                let mut i: usize = 0;
                while i < stop
                    invariant
                        i <= stop <= chars.len(),
                        out@ == chars@.take(i as int),
                    decreases stop - i,
                {
                    out.push(chars[i]);
                    proof {
                        assert(chars@.take(i + 1) =~= chars@.take(i as int).push(chars@[i as int]));
                    }
                    i = i + 1;
                }
            }
            Some(crate::text::from_chars(&out))
        },
    }
}

/// The place that a click on the place `i` means.
fn clamp(i: usize, len: usize) -> (r: usize)
    requires
        len > 0,
    ensures
        r == clamped(i, len as nat),
        r < len,
{
    if i > len - 1 {
        len - 1
    } else {
        i
    }
}

/// Handles one message: changes the state as the message asks, and says
/// what the shell is to do then.
pub fn handle_update(state: &mut AppState, message: Message, facts: Facts) -> (r: Outcome)
    requires
        can_handle(old(state).deep_view(), message.deep_view()),
    ensures
        final(state).deep_view() == state_after(
            old(state).deep_view(),
            message.deep_view(),
            facts,
        ),
        r.action.deep_view() == action_after(message.deep_view()),
        r.repaint == repaint_after(old(state).deep_view(), message.deep_view()),
{
    let ghost s = state.deep_view();
    match message {
        Message::Log(entry) => {
            state.logs.push(entry);
            proof {
                assert(state.logs.deep_view() =~= s.logs.push(entry.deep_view()));
            }
            Outcome { action: Action::Nothing, repaint: true }
        },
        Message::CloseError => {
            state.error = None;
            Outcome { action: Action::Nothing, repaint: true }
        },
        Message::SelectOnly(i) => {
            let index = clamp(i, state.mods.len());
            if holds(&state.selected, &state.mods[index]) {
                state.selected = sifted(&state.selected, &state.mods[index], true);
            } else {
                let mut one: Vec<Mod> = Vec::new();
                one.push(state.mods[index].dup());
                proof {
                    assert(one.deep_view() =~= seq![s.mods[index as int]]);
                }
                state.selected = one;
            }
            state.drag_index = None;
            Outcome { action: Action::Nothing, repaint: true }
        },
        Message::SelectAlso(i) => {
            let index = clamp(i, state.mods.len());
            if !holds(&state.selected, &state.mods[index]) {
                let x = state.mods[index].dup();
                state.selected.push(x);
                proof {
                    assert(state.selected.deep_view() =~= s.selected.push(s.mods[index as int]));
                }
            }
            state.drag_index = None;
            Outcome { action: Action::Nothing, repaint: true }
        },
        Message::Deselect(i) => {
            let index = clamp(i, state.mods.len());
            state.selected = sifted(&state.selected, &state.mods[index], false);
            state.drag_index = None;
            Outcome { action: Action::Nothing, repaint: true }
        },
        Message::ClearSelect => {
            state.selected = Vec::new();
            proof {
                assert(state.selected.deep_view() =~= Seq::empty());
            }
            state.drag_index = None;
            Outcome { action: Action::Nothing, repaint: true }
        },
        Message::StartDrag(i) => {
            state.drag_index = Some(i);
            if !holds(&state.selected, &state.mods[i]) {
                let x = state.mods[i].dup();
                if !facts.ctrl {
                    state.selected = Vec::new();
                }
                let ghost before = state.selected.deep_view();
                state.selected.push(x);
                proof {
                    assert(state.selected.deep_view() =~= before.push(s.mods[i as int]));
                    if !facts.ctrl {
                        assert(before =~= Seq::empty());
                        assert(state.selected.deep_view() =~= seq![s.mods[i as int]]);
                    }
                }
            }
            Outcome { action: Action::Nothing, repaint: true }
        },
        Message::ClearDrag => {
            state.drag_index = None;
            Outcome { action: Action::Nothing, repaint: true }
        },
        Message::MoveSelected(dest) => {
            if state.selected.len() == state.mods.len() {
                return Outcome { action: Action::Nothing, repaint: false };
            }
            let rest = outside(&state.mods, &state.selected);
            state.mods = spliced(&rest, &state.selected, dest);
            state.hover_index = None;
            state.drag_index = None;
            Outcome { action: Action::Nothing, repaint: true }
        },
        Message::FilePickerUp => {
            match parent(state.picker_state.path.as_str()) {
                Some(up) => {
                    let old_path = state.picker_state.path.clone();
                    state.picker_state.history.push(old_path);
                    proof {
                        assert(state.picker_state.history.deep_view() =~= s.picker.history.push(
                            s.picker.path,
                        ));
                    }
                    state.picker_state.path_input = up.clone();
                    state.picker_state.path = up;
                },
                None => {},
            }
            Outcome { action: Action::Nothing, repaint: true }
        },
        Message::FilePickerBack => {
            match state.picker_state.history.pop() {
                Some(prev) => {
                    proof {
                        assert(state.picker_state.history.deep_view()
                            =~= s.picker.history.drop_last());
                        assert(prev@ == s.picker.history.last());
                    }
                    state.picker_state.path_input = prev.clone();
                    state.picker_state.path = prev;
                },
                None => {},
            }
            Outcome { action: Action::Nothing, repaint: true }
        },
        Message::FilePickerSet(path) => {
            if facts.target_is_dir {
                let target = match path {
                    Some(p) => p,
                    None => state.picker_state.path_input.clone(),
                };
                state.picker_state.selected = None;
                let old_path = state.picker_state.path.clone();
                state.picker_state.history.push(old_path);
                proof {
                    assert(state.picker_state.history.deep_view() =~= s.picker.history.push(
                        s.picker.path,
                    ));
                }
                state.picker_state.path_input = target.clone();
                state.picker_state.path = target;
            }
            Outcome { action: Action::Nothing, repaint: true }
        },
        Message::ChangeProfile(_) => Outcome { action: Action::Nothing, repaint: true },
        Message::SetFocus(pane) => {
            state.focused = pane;
            Outcome { action: Action::Nothing, repaint: true }
        },
        Message::OpenMod(path) => {
            state.busy = true;
            Outcome { action: Action::OpenMod(path), repaint: true }
        },
        Message::HandleMod(found) => {
            state.busy = false;
            if found.options.len() > 0 {
                Outcome { action: Action::Send(Message::RequestOptions(found)), repaint: true }
            } else {
                Outcome { action: Action::Send(Message::InstallMod(found)), repaint: true }
            }
        },
        Message::RequestOptions(_) => Outcome { action: Action::Nothing, repaint: true },
        Message::InstallMod(found) => {
            state.busy = true;
            Outcome { action: Action::Install(found), repaint: true }
        },
        Message::AddMod(found) => {
            state.busy = false;
            state.mods.push(found);
            proof {
                assert(state.mods.deep_view() =~= s.mods.push(found.deep_view()));
            }
            Outcome { action: Action::Nothing, repaint: true }
        },
        Message::Error(error) => {
            state.busy = false;
            state.error = Some(error);
            Outcome { action: Action::Nothing, repaint: true }
        },
    }
}

} // verus!
