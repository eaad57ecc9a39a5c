use vstd::prelude::*;
use crate::task::{
    Task, TaskView, views_of, tasks_clean, text_clean, clean_char, is_clean_char,
    lemma_views_of_index, lemma_views_of_remove, lemma_views_of_push, lemma_views_of_update,
};
use crate::text::{is_prefix_of, push_char, pop_char};
use crate::filter::{
    displayed, vis_index, is_shown_at, lemma_vis_index, lemma_remove_displayed,
    lemma_update_displayed, lemma_shown_at_unique, count_displayed, find_displayed,
};

verus! {

/// The three mutually exclusive input modes of the application.
#[derive(PartialEq, Eq, Clone, Copy, Debug, Structural)]
pub enum Mode {
    Normal,
    Adding,
    Search,
}

/// A key event as the state machine sees it. `Other` stands for every key
/// that no mode interprets.
#[derive(PartialEq, Eq, Clone, Copy, Debug, Structural)]
pub enum Key {
    Char(char),
    Up,
    Down,
    Delete,
    Enter,
    Backspace,
    Esc,
    Other,
}

/// The kind of a key event. Only a fresh press drives the state machine;
/// releases and auto-repeats are ignored.
#[derive(PartialEq, Eq, Clone, Copy, Debug, Structural)]
pub enum KeyKind {
    Press,
    Release,
    Repeat,
}

/// Mathematical model of the application state.
#[verifier::ext_equal]
pub ghost struct AppView {
    pub mode: Mode,
    pub tasks: Seq<TaskView>,
    pub search: Seq<char>,
    pub draft: Seq<char>,
    pub sel: Option<int>,
}

impl AppView {
    /// The number of tasks currently displayed.
    pub open spec fn vis_len(self) -> int {
        displayed(self.tasks, self.search).len() as int
    }

    /// Well-formedness of the application state:
    /// - the selection, when present, indexes into the displayed sequence;
    /// - only Normal mode carries a selection;
    /// - all texts are free of control characters.
    pub open spec fn wf(self) -> bool {
        &&& match self.sel {
            Option::Some(i) => 0 <= i < self.vis_len(),
            Option::None => true,
        }
        &&& self.mode != Mode::Normal ==> self.sel is None
        &&& tasks_clean(self.tasks)
        &&& text_clean(self.search)
        &&& text_clean(self.draft)
    }
}

/// Moving the selection up: select the top task when nothing is selected
/// and any task is displayed; otherwise clamp at the top, no wraparound.
pub open spec fn sel_up(sel: Option<int>, n: int) -> Option<int> {
    match sel {
        Option::None => if n > 0 {
            Option::Some(0int)
        } else {
            Option::None
        },
        Option::Some(i) => if i == 0 {
            Option::Some(0int)
        } else {
            Option::Some(i - 1)
        },
    }
}

/// Moving the selection down: select the top task when nothing is selected
/// and any task is displayed; otherwise clamp at the bottom of the
/// displayed list, no wraparound.
pub open spec fn sel_down(sel: Option<int>, n: int) -> Option<int> {
    match sel {
        Option::None => if n > 0 {
            Option::Some(0int)
        } else {
            Option::None
        },
        Option::Some(i) => if i + 1 < n {
            Option::Some(i + 1)
        } else {
            Option::Some(i)
        },
    }
}

/// The task sequence with the completion flag of the task at `j` flipped.
pub open spec fn toggle_at(ts: Seq<TaskView>, j: int) -> Seq<TaskView> {
    ts.update(j, TaskView { completed: !ts[j].completed, ..ts[j] })
}

/// One step of the machine in Normal mode.
pub open spec fn step_normal(s: AppView, key: Key) -> AppView {
    match key {
        Key::Char(c) => if c == 'n' {
            AppView { mode: Mode::Adding, sel: Option::None, ..s }
        } else if c == 's' {
            AppView { mode: Mode::Search, sel: Option::None, ..s }
        } else {
            // 'q' quits with the state unchanged; everything else is a no-op
            s
        },
        Key::Up => AppView { sel: sel_up(s.sel, s.vis_len()), ..s },
        Key::Down => AppView { sel: sel_down(s.sel, s.vis_len()), ..s },
        Key::Esc => AppView { sel: Option::None, ..s },
        Key::Delete => match s.sel {
            Option::None => s,
            Option::Some(i) => {
                let j = vis_index(s.tasks, s.search, i);
                let tasks = s.tasks.remove(j);
                let n = displayed(tasks, s.search).len();
                let sel = if i > 0 {
                    Option::Some(i - 1)
                } else if n == 0 {
                    Option::None
                } else {
                    Option::Some(0int)
                };
                AppView { tasks, sel, ..s }
            },
        },
        Key::Enter => match s.sel {
            Option::None => s,
            Option::Some(i) => AppView {
                tasks: toggle_at(s.tasks, vis_index(s.tasks, s.search, i)),
                ..s
            },
        },
        _ => s,
    }
}

/// One step of the machine in Adding mode. The draft is edited in place;
/// Enter commits a non-empty draft as a new, uncompleted task at the end
/// of the sequence and stays in Adding mode.
pub open spec fn step_adding(s: AppView, key: Key) -> AppView {
    match key {
        Key::Esc => AppView { mode: Mode::Normal, draft: Seq::empty(), ..s },
        Key::Char(c) => if clean_char(c) {
            AppView { draft: s.draft.push(c), ..s }
        } else {
            s
        },
        Key::Backspace => if s.draft.len() > 0 {
            AppView { draft: s.draft.drop_last(), ..s }
        } else {
            s
        },
        Key::Enter => if s.draft.len() > 0 {
            AppView {
                tasks: s.tasks.push(TaskView { text: s.draft, completed: false }),
                draft: Seq::empty(),
                ..s
            }
        } else {
            s
        },
        _ => s,
    }
}

/// One step of the machine in Search mode. The search text is edited in
/// place and is kept when leaving the mode: filtering stays live.
pub open spec fn step_search(s: AppView, key: Key) -> AppView {
    match key {
        Key::Esc => AppView { mode: Mode::Normal, ..s },
        Key::Char(c) => if clean_char(c) {
            AppView { search: s.search.push(c), ..s }
        } else {
            s
        },
        Key::Backspace => if s.search.len() > 0 {
            AppView { search: s.search.drop_last(), ..s }
        } else {
            s
        },
        _ => s,
    }
}

/// One step of the input state machine: what a single key event does to
/// the application state. Events that are not fresh presses are ignored.
pub open spec fn step(s: AppView, key: Key, kind: KeyKind) -> AppView {
    if kind != KeyKind::Press {
        s
    } else {
        match s.mode {
            Mode::Normal => step_normal(s, key),
            Mode::Adding => step_adding(s, key),
            Mode::Search => step_search(s, key),
        }
    }
}

/// Whether the key event quits the application. Quitting is the only exit
/// path; the caller saves the task sequence and stops the event loop.
pub open spec fn quits(s: AppView, key: Key, kind: KeyKind) -> bool {
    kind == KeyKind::Press && s.mode == Mode::Normal && key == Key::Char('q')
}

/// The keys a mode reacts to. All other keys leave the state unchanged.
pub open spec fn recognized(mode: Mode, key: Key) -> bool {
    match mode {
        Mode::Normal => match key {
            Key::Char(c) => c == 'q' || c == 'n' || c == 's',
            Key::Up | Key::Down | Key::Delete | Key::Enter | Key::Esc => true,
            _ => false,
        },
        Mode::Adding => match key {
            Key::Esc | Key::Backspace | Key::Enter => true,
            Key::Char(c) => clean_char(c),
            _ => false,
        },
        Mode::Search => match key {
            Key::Esc | Key::Backspace => true,
            Key::Char(c) => clean_char(c),
            _ => false,
        },
    }
}

/// Every step of the machine preserves well-formedness of the state.
pub proof fn lemma_step_preserves_wf(s: AppView, key: Key, kind: KeyKind)
    requires
        s.wf(),
    ensures
        step(s, key, kind).wf(),
{
    let s2 = step(s, key, kind);
    if kind == KeyKind::Press {
        match s.mode {
            Mode::Normal => {
                match key {
                    Key::Delete => {
                        if let Option::Some(i) = s.sel {
                            lemma_vis_index(s.tasks, s.search, i);
                            lemma_remove_displayed(s.tasks, s.search, i);
                            let j = vis_index(s.tasks, s.search, i);
                            let tasks = s.tasks.remove(j);
                            assert forall|k: int| 0 <= k < tasks.len() implies text_clean(
                                #[trigger] tasks[k].text,
                            ) by {
                                if k < j {
                                    assert(tasks[k] == s.tasks[k]);
                                } else {
                                    assert(tasks[k] == s.tasks[k + 1]);
                                }
                            }
                            assert(displayed(tasks, s.search) == displayed(
                                s.tasks,
                                s.search,
                            ).remove(i));
                        }
                    },
                    Key::Enter => {
                        if let Option::Some(i) = s.sel {
                            lemma_vis_index(s.tasks, s.search, i);
                            let j = vis_index(s.tasks, s.search, i);
                            let nt = TaskView { completed: !s.tasks[j].completed, ..s.tasks[j] };
                            lemma_update_displayed(s.tasks, s.search, i, nt);
                            let tasks = toggle_at(s.tasks, j);
                            assert forall|k: int| 0 <= k < tasks.len() implies text_clean(
                                #[trigger] tasks[k].text,
                            ) by {
                                if k != j {
                                    assert(tasks[k] == s.tasks[k]);
                                }
                            }
                            assert(displayed(tasks, s.search) == displayed(
                                s.tasks,
                                s.search,
                            ).update(i, nt));
                        }
                    },
                    _ => {},
                }
            },
            Mode::Adding => {
                match key {
                    Key::Char(c) => {
                        if clean_char(c) {
                            let d = s.draft.push(c);
                            assert forall|k: int| 0 <= k < d.len() implies clean_char(
                                #[trigger] d[k],
                            ) by {
                                if k < s.draft.len() {
                                    assert(d[k] == s.draft[k]);
                                }
                            }
                        }
                    },
                    Key::Backspace => {
                        if s.draft.len() > 0 {
                            let d = s.draft.drop_last();
                            assert forall|k: int| 0 <= k < d.len() implies clean_char(
                                #[trigger] d[k],
                            ) by {
                                assert(d[k] == s.draft[k]);
                            }
                        }
                    },
                    Key::Enter => {
                        if s.draft.len() > 0 {
                            let tasks = s.tasks.push(TaskView { text: s.draft, completed: false });
                            assert forall|k: int| 0 <= k < tasks.len() implies text_clean(
                                #[trigger] tasks[k].text,
                            ) by {
                                if k < s.tasks.len() {
                                    assert(tasks[k] == s.tasks[k]);
                                }
                            }
                        }
                    },
                    _ => {},
                }
            },
            Mode::Search => {
                match key {
                    Key::Char(c) => {
                        if clean_char(c) {
                            let t = s.search.push(c);
                            assert forall|k: int| 0 <= k < t.len() implies clean_char(
                                #[trigger] t[k],
                            ) by {
                                if k < s.search.len() {
                                    assert(t[k] == s.search[k]);
                                }
                            }
                        }
                    },
                    Key::Backspace => {
                        if s.search.len() > 0 {
                            let t = s.search.drop_last();
                            assert forall|k: int| 0 <= k < t.len() implies clean_char(
                                #[trigger] t[k],
                            ) by {
                                assert(t[k] == s.search[k]);
                            }
                        }
                    },
                    _ => {},
                }
            },
        }
    }
}

/// The application state: the input mode, the task sequence, the live
/// search text, the draft of a new task, and the optional selection into
/// the displayed sequence.
///
/// Mutate it only through `handle_key`, which preserves well-formedness.
pub struct App {
    pub mode: Mode,
    pub tasks: Vec<Task>,
    pub search_txt: String,
    pub new_task: String,
    pub selected: Option<usize>,
}

impl View for App {
    type V = AppView;

    open spec fn view(&self) -> AppView {
        AppView {
            mode: self.mode,
            tasks: views_of(self.tasks@),
            search: self.search_txt@,
            draft: self.new_task@,
            sel: match self.selected {
                Option::Some(i) => Option::Some(i as int),
                Option::None => Option::None,
            },
        }
    }
}

impl App {
    /// A fresh application: Normal mode, no tasks, empty search and draft,
    /// nothing selected.
    pub fn new() -> (r: App)
        ensures
            r@ == (AppView {
                mode: Mode::Normal,
                tasks: Seq::empty(),
                search: Seq::empty(),
                draft: Seq::empty(),
                sel: Option::None,
            }),
            r@.wf(),
    {
        let r = App {
            mode: Mode::Normal,
            tasks: Vec::new(),
            search_txt: String::new(),
            new_task: String::new(),
            selected: None,
        };
        proof {
            assert(r@.tasks =~= Seq::<TaskView>::empty());
            assert(r@ =~~= (AppView {
                mode: Mode::Normal,
                tasks: Seq::empty(),
                search: Seq::empty(),
                draft: Seq::empty(),
                sel: Option::None,
            }));
        }
        r
    }

    /// An application loaded with an initial task sequence, as at startup.
    pub fn with_tasks(tasks: Vec<Task>) -> (r: App)
        requires
            tasks_clean(views_of(tasks@)),
        ensures
            r@ == (AppView {
                mode: Mode::Normal,
                tasks: views_of(tasks@),
                search: Seq::empty(),
                draft: Seq::empty(),
                sel: Option::None,
            }),
            r@.wf(),
    {
        let r = App {
            mode: Mode::Normal,
            tasks,
            search_txt: String::new(),
            new_task: String::new(),
            selected: None,
        };
        proof {
            assert(r@ =~~= (AppView {
                mode: Mode::Normal,
                tasks: views_of(r.tasks@),
                search: Seq::empty(),
                draft: Seq::empty(),
                sel: Option::None,
            }));
        }
        r
    }

    /// Dispatch one key event to the active mode. Returns true exactly when
    /// the event is the quit command: the caller then persists the tasks and
    /// stops the event loop. The state changes exactly as `step` says.
    pub fn handle_key(&mut self, key: Key, kind: KeyKind) -> (quit: bool)
        requires
            old(self)@.wf(),
        ensures
            final(self)@ == step(old(self)@, key, kind),
            final(self)@.wf(),
            quit == quits(old(self)@, key, kind),
    {
        proof {
            lemma_step_preserves_wf(old(self)@, key, kind);
        }
        let ghost s0 = self@;
        let ghost v0 = self.tasks@;
        if !matches!(kind, KeyKind::Press) {
            proof {
                assert(self@ =~~= step(s0, key, kind));
            }
            return false;
        }
        match self.mode {
            Mode::Normal => {
                match key {
                    Key::Char(c) => {
                        if c == 'q' {
                            proof {
                                assert(self@ =~~= step(s0, key, kind));
                            }
                            true
                        } else if c == 'n' {
                            self.mode = Mode::Adding;
                            self.selected = None;
                            proof {
                                assert(self@ =~~= step(s0, key, kind));
                            }
                            false
                        } else if c == 's' {
                            self.mode = Mode::Search;
                            self.selected = None;
                            proof {
                                assert(self@ =~~= step(s0, key, kind));
                            }
                            false
                        } else {
                            proof {
                                assert(self@ =~~= step(s0, key, kind));
                            }
                            false
                        }
                    },
                    Key::Up => {
                        let n = count_displayed(&self.tasks, &self.search_txt);
                        self.selected = match self.selected {
                            None => if n > 0 {
                                Some(0)
                            } else {
                                None
                            },
                            Some(v) => if v == 0 {
                                Some(0)
                            } else {
                                Some(v - 1)
                            },
                        };
                        proof {
                            assert(self@ =~~= step(s0, key, kind));
                        }
                        false
                    },
                    Key::Down => {
                        let n = count_displayed(&self.tasks, &self.search_txt);
                        self.selected = match self.selected {
                            None => if n > 0 {
                                Some(0)
                            } else {
                                None
                            },
                            Some(v) => if v + 1 < n {
                                Some(v + 1)
                            } else {
                                Some(v)
                            },
                        };
                        proof {
                            assert(self@ =~~= step(s0, key, kind));
                        }
                        false
                    },
                    Key::Esc => {
                        self.selected = None;
                        proof {
                            assert(self@ =~~= step(s0, key, kind));
                        }
                        false
                    },
                    Key::Delete => {
                        if let Some(i) = self.selected {
                            proof {
                                lemma_vis_index(s0.tasks, s0.search, i as int);
                            }
                            let j = find_displayed(&self.tasks, &self.search_txt, i);
                            let _removed = self.tasks.remove(j);
                            proof {
                                lemma_views_of_remove(v0, j as int);
                            }
                            let n = count_displayed(&self.tasks, &self.search_txt);
                            self.selected = if i > 0 {
                                Some(i - 1)
                            } else if n == 0 {
                                None
                            } else {
                                Some(0)
                            };
                            proof {
                                assert(self@ =~~= step(s0, key, kind));
                            }
                        } else {
                            proof {
                                assert(self@ =~~= step(s0, key, kind));
                            }
                        }
                        false
                    },
                    Key::Enter => {
                        if let Some(i) = self.selected {
                            proof {
                                lemma_vis_index(s0.tasks, s0.search, i as int);
                            }
                            let j = find_displayed(&self.tasks, &self.search_txt, i);
                            let t = self.tasks.remove(j);
                            let nt = Task { text: t.text, completed: !t.completed };
                            self.tasks.insert(j, nt);
                            proof {
                                assert(v0.remove(j as int).insert(j as int, nt) =~= v0.update(
                                    j as int,
                                    nt,
                                ));
                                lemma_views_of_update(v0, j as int, nt);
                                assert(nt@ =~= (TaskView {
                                    completed: !s0.tasks[j as int].completed,
                                    ..s0.tasks[j as int]
                                }));
                                assert(self@.tasks =~= toggle_at(s0.tasks, j as int));
                                assert(self@ =~~= step(s0, key, kind));
                            }
                        } else {
                            proof {
                                assert(self@ =~~= step(s0, key, kind));
                            }
                        }
                        false
                    },
                    _ => {
                        proof {
                            assert(self@ =~~= step(s0, key, kind));
                        }
                        false
                    },
                }
            },
            Mode::Adding => {
                match key {
                    Key::Esc => {
                        self.mode = Mode::Normal;
                        self.new_task = String::new();
                        proof {
                            assert(self@ =~~= step(s0, key, kind));
                        }
                    },
                    Key::Char(c) => {
                        if is_clean_char(c) {
                            push_char(&mut self.new_task, c);
                        }
                        proof {
                            assert(self@ =~~= step(s0, key, kind));
                        }
                    },
                    Key::Backspace => {
                        let _ = pop_char(&mut self.new_task);
                        proof {
                            assert(self@ =~~= step(s0, key, kind));
                        }
                    },
                    Key::Enter => {
                        if !self.new_task.as_str().is_empty() {
                            let text = self.new_task.clone();
                            self.new_task = String::new();
                            let new_entry = Task { text, completed: false };
                            let ghost ne = new_entry;
                            self.tasks.push(new_entry);
                            proof {
                                lemma_views_of_push(v0, ne);
                                assert(ne@ =~= (TaskView { text: s0.draft, completed: false }));
                                assert(self@.tasks =~= s0.tasks.push(
                                    TaskView { text: s0.draft, completed: false },
                                ));
                                assert(self@ =~~= step(s0, key, kind));
                            }
                        } else {
                            proof {
                                assert(self@ =~~= step(s0, key, kind));
                            }
                        }
                    },
                    _ => {
                        proof {
                            assert(self@ =~~= step(s0, key, kind));
                        }
                    },
                }
                false
            },
            Mode::Search => {
                match key {
                    Key::Esc => {
                        self.mode = Mode::Normal;
                        proof {
                            assert(self@ =~~= step(s0, key, kind));
                        }
                    },
                    Key::Char(c) => {
                        if is_clean_char(c) {
                            push_char(&mut self.search_txt, c);
                        }
                        proof {
                            assert(self@ =~~= step(s0, key, kind));
                        }
                    },
                    Key::Backspace => {
                        let _ = pop_char(&mut self.search_txt);
                        proof {
                            assert(self@ =~~= step(s0, key, kind));
                        }
                    },
                    _ => {
                        proof {
                            assert(self@ =~~= step(s0, key, kind));
                        }
                    },
                }
                false
            },
        }
    }
}

/// One line of the render projection: the task text, whether to draw it
/// as completed, and how many leading characters to mark as the matched
/// search prefix (zero when the search text is empty).
pub struct DisplayItem {
    pub text: String,
    pub completed: bool,
    pub highlighted: usize,
}

impl App {
    /// The pure render projection: the displayed tasks in order, each with
    /// its completion flag and the length of the highlighted prefix. It
    /// reads the state and never changes it; the caller recomputes it
    /// every frame.
    #[verifier::loop_isolation(false)]
    pub fn display_items(&self) -> (r: Vec<DisplayItem>)
        ensures
            r@.len() == displayed(self@.tasks, self@.search).len(),
            forall|k: int|
                0 <= k < r@.len() ==> (#[trigger] r@[k]).text@ == displayed(
                    self@.tasks,
                    self@.search,
                )[k].text,
            forall|k: int|
                0 <= k < r@.len() ==> (#[trigger] r@[k]).completed == displayed(
                    self@.tasks,
                    self@.search,
                )[k].completed,
            forall|k: int| 0 <= k < r@.len() ==> (#[trigger] r@[k]).highlighted == self@.search.len(),
    {
        broadcast use lemma_views_of_index;

        reveal(Seq::filter);
        let ghost vs = views_of(self.tasks@);
        let hl = self.search_txt.as_str().unicode_len();
        let mut r: Vec<DisplayItem> = Vec::new();
        let mut k: usize = 0;
        while k < self.tasks.len()
            invariant
                0 <= k <= self.tasks.len(),
                hl == self.search_txt@.len(),
                r@.len() == displayed(vs.take(k as int), self.search_txt@).len(),
                forall|k2: int|
                    0 <= k2 < r@.len() ==> (#[trigger] r@[k2]).text@ == displayed(
                        vs.take(k as int),
                        self.search_txt@,
                    )[k2].text,
                forall|k2: int|
                    0 <= k2 < r@.len() ==> (#[trigger] r@[k2]).completed == displayed(
                        vs.take(k as int),
                        self.search_txt@,
                    )[k2].completed,
                forall|k2: int| 0 <= k2 < r@.len() ==> (#[trigger] r@[k2]).highlighted == hl,
            decreases self.tasks.len() - k,
        {
            proof {
                assert(vs.take(k + 1).drop_last() =~= vs.take(k as int));
                assert(vs.take(k + 1).last() == vs[k as int]);
            }
            if is_prefix_of(self.search_txt.as_str(), self.tasks[k].text.as_str()) {
                r.push(
                    DisplayItem {
                        text: self.tasks[k].text.clone(),
                        completed: self.tasks[k].completed,
                        highlighted: hl,
                    },
                );
            }
            k += 1;
        }
        proof {
            assert(vs.take(self.tasks@.len() as int) =~= vs);
        }
        r
    }
}

/// Law: in Normal mode with the selection at the top of the displayed
/// list, the "up" key changes nothing at all: the selection clamps at the
/// top, so repeated "up" stays there.
pub proof fn lemma_up_stays_at_top(s: AppView)
    requires
        s.wf(),
        s.mode == Mode::Normal,
        s.sel == Option::Some(0int),
    ensures
        step(s, Key::Up, KeyKind::Press) == s,
{
    assert(step(s, Key::Up, KeyKind::Press) =~~= s);
}

/// Law: in Normal mode with the selection on the last displayed task, the
/// "down" key changes nothing at all: the selection clamps at the bottom,
/// so repeated "down" stays there.
pub proof fn lemma_down_stays_at_bottom(s: AppView)
    requires
        s.wf(),
        s.mode == Mode::Normal,
        s.vis_len() > 0,
        s.sel == Option::Some(s.vis_len() - 1),
    ensures
        step(s, Key::Down, KeyKind::Press) == s,
{
    assert(step(s, Key::Down, KeyKind::Press) =~~= s);
}

/// Law: deleting at displayed index `i > 0` moves the selection to `i - 1`
/// and removes exactly entry `i` of the displayed sequence.
pub proof fn lemma_delete_moves_selection_up(s: AppView, i: int)
    requires
        s.wf(),
        s.mode == Mode::Normal,
        s.sel == Option::Some(i),
        i > 0,
    ensures
        step(s, Key::Delete, KeyKind::Press).sel == Option::Some(i - 1),
        displayed(step(s, Key::Delete, KeyKind::Press).tasks, s.search) == displayed(
            s.tasks,
            s.search,
        ).remove(i),
{
    lemma_vis_index(s.tasks, s.search, i);
    lemma_remove_displayed(s.tasks, s.search, i);
}

/// Law: deleting the sole displayed task leaves nothing displayed and
/// clears the selection.
pub proof fn lemma_delete_sole_clears_selection(s: AppView)
    requires
        s.wf(),
        s.mode == Mode::Normal,
        s.sel == Option::Some(0int),
        s.vis_len() == 1,
    ensures
        step(s, Key::Delete, KeyKind::Press).sel is None,
        displayed(step(s, Key::Delete, KeyKind::Press).tasks, s.search).len() == 0,
{
    lemma_vis_index(s.tasks, s.search, 0);
    lemma_remove_displayed(s.tasks, s.search, 0);
}

/// Law: toggling completion twice on the same selected task returns the
/// state exactly to what it was.
pub proof fn lemma_toggle_twice_restores(s: AppView, i: int)
    requires
        s.wf(),
        s.mode == Mode::Normal,
        s.sel == Option::Some(i),
    ensures
        step(step(s, Key::Enter, KeyKind::Press), Key::Enter, KeyKind::Press) == s,
{
    lemma_vis_index(s.tasks, s.search, i);
    let j = vis_index(s.tasks, s.search, i);
    let nt = TaskView { completed: !s.tasks[j].completed, ..s.tasks[j] };
    lemma_update_displayed(s.tasks, s.search, i, nt);
    let s1 = step(s, Key::Enter, KeyKind::Press);
    assert(s1.tasks == toggle_at(s.tasks, j));
    assert(s1.tasks.take(j) =~= s.tasks.take(j));
    assert(is_shown_at(s1.tasks, s.search, i, j));
    lemma_vis_index(s1.tasks, s.search, i);
    lemma_shown_at_unique(s1.tasks, s.search, i, j, vis_index(s1.tasks, s.search, i));
    assert(toggle_at(s1.tasks, j) =~= s.tasks);
    assert(step(s1, Key::Enter, KeyKind::Press) =~~= s);
}

/// Law: a key the active mode does not recognize, or an event that is not
/// a fresh press, leaves the state exactly unchanged. In particular the
/// delete key does nothing while a task is being added.
pub proof fn lemma_unrecognized_key_is_noop(s: AppView, key: Key, kind: KeyKind)
    requires
        kind != KeyKind::Press || !recognized(s.mode, key),
    ensures
        step(s, key, kind) == s,
{
}

/// Law: while in Adding mode no key event ever changes the search text.
pub proof fn lemma_adding_preserves_search(s: AppView, key: Key, kind: KeyKind)
    requires
        s.mode == Mode::Adding,
    ensures
        step(s, key, kind).search == s.search,
{
}

/// Law: while in Search mode no key event ever changes the draft text.
pub proof fn lemma_search_preserves_draft(s: AppView, key: Key, kind: KeyKind)
    requires
        s.mode == Mode::Search,
    ensures
        step(s, key, kind).draft == s.draft,
{
}

} // verus!
