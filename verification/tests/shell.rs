use ukmm::gui::{
    handle_update, holds, parent, Action, AppState, Entry, Facts, FilePickerState, FocusedPane,
    Message, Mod,
};
use ukmm::unpack::ModOption;

fn a_mod(path: &str) -> Mod {
    Mod { path: path.to_owned(), enabled: false, options: vec![] }
}

fn state(mods: &[&str], selected: &[&str]) -> AppState {
    AppState {
        mods: mods.iter().map(|m| a_mod(m)).collect(),
        selected: selected.iter().map(|m| a_mod(m)).collect(),
        drag_index: Some(0),
        hover_index: Some(1),
        picker_state: FilePickerState {
            path: "/home/user/mods".to_owned(),
            history: vec!["/home".to_owned()],
            selected: Some("/home/user/mods/a.zip".to_owned()),
            path_input: "/tmp".to_owned(),
        },
        focused: FocusedPane::Neither,
        logs: vec![],
        error: None,
        busy: false,
    }
}

fn facts() -> Facts {
    Facts { ctrl: false, target_is_dir: true }
}

fn paths(mods: &[Mod]) -> Vec<&str> {
    mods.iter().map(|m| m.path.as_str()).collect()
}

#[test]
fn selecting() {
    let mut s = state(&["a", "b", "c"], &["a", "b"]);
    let out = handle_update(&mut s, Message::SelectOnly(1), facts());
    assert!(out.repaint);
    assert!(matches!(out.action, Action::Nothing));
    assert_eq!(paths(&s.selected), vec!["b"]);
    assert_eq!(s.drag_index, None);
    handle_update(&mut s, Message::SelectOnly(99), facts());
    assert_eq!(paths(&s.selected), vec!["c"]);
    handle_update(&mut s, Message::SelectAlso(0), facts());
    handle_update(&mut s, Message::SelectAlso(0), facts());
    assert_eq!(paths(&s.selected), vec!["c", "a"]);
    handle_update(&mut s, Message::Deselect(2), facts());
    assert_eq!(paths(&s.selected), vec!["a"]);
    handle_update(&mut s, Message::ClearSelect, facts());
    assert!(s.selected.is_empty());
}

#[test]
fn dragging() {
    let mut s = state(&["a", "b", "c"], &["a"]);
    handle_update(&mut s, Message::StartDrag(2), facts());
    assert_eq!(s.drag_index, Some(2));
    assert_eq!(paths(&s.selected), vec!["c"]);
    let ctrl = Facts { ctrl: true, ..facts() };
    handle_update(&mut s, Message::StartDrag(1), ctrl);
    assert_eq!(paths(&s.selected), vec!["c", "b"]);
    handle_update(&mut s, Message::StartDrag(1), facts());
    assert_eq!(paths(&s.selected), vec!["c", "b"]);
    handle_update(&mut s, Message::ClearDrag, facts());
    assert_eq!(s.drag_index, None);
}

#[test]
fn moving_the_selected_mods() {
    let mut s = state(&["a", "b", "c", "d", "e"], &["d", "b"]);
    let out = handle_update(&mut s, Message::MoveSelected(1), facts());
    assert!(out.repaint);
    assert_eq!(paths(&s.mods), vec!["a", "d", "b", "c", "e"]);
    assert_eq!(s.hover_index, None);
    assert_eq!(s.drag_index, None);
    handle_update(&mut s, Message::MoveSelected(3), facts());
    assert_eq!(paths(&s.mods), vec!["a", "c", "e", "d", "b"]);
    handle_update(&mut s, Message::MoveSelected(0), facts());
    assert_eq!(paths(&s.mods), vec!["d", "b", "a", "c", "e"]);
    let mut all = state(&["a", "b"], &["b", "a"]);
    let out = handle_update(&mut all, Message::MoveSelected(7), facts());
    assert!(!out.repaint);
    assert_eq!(paths(&all.mods), vec!["a", "b"]);
    assert_eq!(all.hover_index, Some(1));
}

#[test]
fn walking_the_file_picker() {
    let mut s = state(&[], &[]);
    handle_update(&mut s, Message::FilePickerUp, facts());
    assert_eq!(s.picker_state.path, "/home/user");
    assert_eq!(s.picker_state.path_input, "/home/user");
    assert_eq!(s.picker_state.history, vec!["/home", "/home/user/mods"]);
    handle_update(&mut s, Message::FilePickerBack, facts());
    assert_eq!(s.picker_state.path, "/home/user/mods");
    assert_eq!(s.picker_state.history, vec!["/home"]);
    handle_update(&mut s, Message::FilePickerSet(Some("/opt".to_owned())), facts());
    assert_eq!(s.picker_state.path, "/opt");
    assert_eq!(s.picker_state.selected, None);
    assert_eq!(s.picker_state.history, vec!["/home", "/home/user/mods"]);
    let file = Facts { target_is_dir: false, ..facts() };
    handle_update(&mut s, Message::FilePickerSet(Some("/opt/a.zip".to_owned())), file);
    assert_eq!(s.picker_state.path, "/opt");
    s.picker_state.path_input = "/typed".to_owned();
    handle_update(&mut s, Message::FilePickerSet(None), facts());
    assert_eq!(s.picker_state.path, "/typed");
    s.picker_state.path = "/".to_owned();
    s.picker_state.history.clear();
    handle_update(&mut s, Message::FilePickerUp, facts());
    assert_eq!(s.picker_state.path, "/");
    handle_update(&mut s, Message::FilePickerBack, facts());
    assert_eq!(s.picker_state.path, "/");
}

#[test]
fn parents() {
    assert_eq!(parent("/home/user/mods"), Some("/home/user".to_owned()));
    assert_eq!(parent("/home/user/mods/"), Some("/home/user".to_owned()));
    assert_eq!(parent("/home"), Some("/".to_owned()));
    assert_eq!(parent("/"), None);
    assert_eq!(parent(""), None);
    assert_eq!(parent("mods"), Some("".to_owned()));
    assert_eq!(parent("a//b"), Some("a".to_owned()));
    assert_eq!(parent("a/b"), Some("a".to_owned()));
}

#[test]
fn tasks_and_their_ends() {
    let mut s = state(&["a"], &[]);
    let out = handle_update(&mut s, Message::OpenMod("/mods/b.zip".to_owned()), facts());
    assert!(s.busy);
    assert!(matches!(out.action, Action::OpenMod(ref p) if p == "/mods/b.zip"));
    let out = handle_update(&mut s, Message::HandleMod(a_mod("b")), facts());
    assert!(!s.busy);
    assert!(matches!(out.action, Action::Send(Message::InstallMod(ref m)) if m.path == "b"));
    let mut with_options = a_mod("c");
    with_options.options.push(ModOption {
        name: "Hard".to_owned(),
        description: "Harder enemies".to_owned(),
        path: "hard".to_owned(),
    });
    let out = handle_update(&mut s, Message::HandleMod(with_options), facts());
    assert!(matches!(out.action, Action::Send(Message::RequestOptions(ref m)) if m.path == "c"));
    let out = handle_update(&mut s, Message::InstallMod(a_mod("b")), facts());
    assert!(s.busy);
    assert!(matches!(out.action, Action::Install(ref m) if m.path == "b"));
    handle_update(&mut s, Message::AddMod(a_mod("b")), facts());
    assert!(!s.busy);
    assert_eq!(paths(&s.mods), vec!["a", "b"]);
}

#[test]
fn errors_and_the_rest() {
    let mut s = state(&["a"], &[]);
    s.busy = true;
    let out = handle_update(&mut s, Message::Error("it broke".to_owned()), facts());
    assert!(out.repaint);
    assert!(!s.busy);
    assert_eq!(s.error.as_deref(), Some("it broke"));
    handle_update(&mut s, Message::CloseError, facts());
    assert_eq!(s.error, None);
    handle_update(&mut s, Message::SetFocus(FocusedPane::FilePicker), facts());
    assert_eq!(s.focused, FocusedPane::FilePicker);
    let entry = Entry {
        timestamp: "12:00".to_owned(),
        level: "INFO".to_owned(),
        args: "Started".to_owned(),
    };
    handle_update(&mut s, Message::Log(entry), facts());
    assert_eq!(s.logs.len(), 1);
    assert_eq!(s.logs[0].args, "Started");
    assert!(holds(&s.mods, &a_mod("a")));
    assert!(!holds(&s.mods, &a_mod("b")));
}
