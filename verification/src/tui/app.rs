//! Pane modes, pages, and what rows and hits lead to.

use vstd::prelude::*;

use crate::text::{decimal, decimal_string};

verus! {

/// Work the event loop does for the app: processes, the terminal, threads.
#[derive(Debug, Clone, PartialEq, Eq)]
pub enum Effect {
    Edit { path: String, line: u32 },
    Copy(String),
    Search { generation: u64, query: String },
}

#[derive(Debug, Clone, Copy, PartialEq, Eq, Structural)]
pub enum Mode {
    Tree,
    Backlinks,
    Forward,
    Tags,
    Unresolved,
    Orphans,
    Recent,
    Search,
}

/// The name a mode is shown by.
pub open spec fn mode_name(m: Mode) -> Seq<char> {
    match m {
        Mode::Tree => seq!['T', 'r', 'e', 'e'],
        Mode::Backlinks => seq!['B', 'a', 'c', 'k', 'l', 'i', 'n', 'k', 's'],
        Mode::Forward => seq!['F', 'o', 'r', 'w', 'a', 'r', 'd'],
        Mode::Tags => seq!['T', 'a', 'g', 's'],
        Mode::Unresolved => seq!['U', 'n', 'r', 'e', 's', 'o', 'l', 'v', 'e', 'd'],
        Mode::Orphans => seq!['O', 'r', 'p', 'h', 'a', 'n', 's'],
        Mode::Recent => seq!['R', 'e', 'c', 'e', 'n', 't'],
        Mode::Search => seq!['S', 'e', 'a', 'r', 'c', 'h'],
    }
}

impl Mode {
    /// Every mode, in the order the pane cycles through them.
    pub fn all() -> (r: Vec<Mode>)
        ensures
            r@ == seq![
                Mode::Tree,
                Mode::Backlinks,
                Mode::Forward,
                Mode::Tags,
                Mode::Unresolved,
                Mode::Orphans,
                Mode::Recent,
                Mode::Search,
            ],
    {
        let mut v = Vec::new();
        v.push(Mode::Tree);
        v.push(Mode::Backlinks);
        v.push(Mode::Forward);
        v.push(Mode::Tags);
        v.push(Mode::Unresolved);
        v.push(Mode::Orphans);
        v.push(Mode::Recent);
        v.push(Mode::Search);
        assert(v@ =~= seq![
            Mode::Tree,
            Mode::Backlinks,
            Mode::Forward,
            Mode::Tags,
            Mode::Unresolved,
            Mode::Orphans,
            Mode::Recent,
            Mode::Search,
        ]);
        v
    }

    pub fn name(self) -> (r: &'static str)
        ensures
            r@ == mode_name(self),
    {
        match self {
            Mode::Tree => {
                proof { reveal_strlit("Tree"); }
                "Tree"
            },
            Mode::Backlinks => {
                proof { reveal_strlit("Backlinks"); }
                "Backlinks"
            },
            Mode::Forward => {
                proof { reveal_strlit("Forward"); }
                "Forward"
            },
            Mode::Tags => {
                proof { reveal_strlit("Tags"); }
                "Tags"
            },
            Mode::Unresolved => {
                proof { reveal_strlit("Unresolved"); }
                "Unresolved"
            },
            Mode::Orphans => {
                proof { reveal_strlit("Orphans"); }
                "Orphans"
            },
            Mode::Recent => {
                proof { reveal_strlit("Recent"); }
                "Recent"
            },
            Mode::Search => {
                proof { reveal_strlit("Search"); }
                "Search"
            },
        }
    }
}

#[derive(Debug, Clone, Copy, PartialEq, Eq, Structural)]
pub enum Focus {
    List,
    Detail,
}

/// What the detail panel shows. Notes are held by path: file ids change on
/// every refresh.
#[derive(Debug, Clone, PartialEq, Eq, Hash)]
pub enum Page {
    Summary,
    Note(String),
    Unresolved(String),
    /// An ambiguous target, by its `key()`.
    Ambiguous(String),
    Attachment(String),
}

#[derive(Debug, Clone)]
pub enum HitTarget {
    /// A link in the open note, by index into its `Parsed::links`.
    Link(usize),
    Open { rel: String, line: u32 },
}

#[derive(Debug, Clone)]
pub struct Hit {
    pub line: usize,
    pub cols: std::ops::Range<u16>,
    pub target: HitTarget,
}

#[derive(Debug, Clone)]
pub enum RowAction {
    Folder(String),
    Open { rel: String, line: Option<u32>, link: Option<usize> },
    Follow(usize),
    Tag(String),
    Show(Page),
    Nothing,
}

/// The largest unit an age reaches: years, months, weeks, days, hours,
/// minutes; seconds below a minute.
pub open spec fn age_of(secs: u64) -> Seq<char> {
    if secs >= 365 * 86_400 {
        decimal((secs / 31_536_000u64) as nat) + seq!['y']
    } else if secs >= 30 * 86_400 {
        decimal((secs / 2_592_000u64) as nat) + seq!['m', 'o']
    } else if secs >= 7 * 86_400 {
        decimal((secs / 604_800u64) as nat) + seq!['w']
    } else if secs >= 86_400 {
        decimal((secs / 86_400u64) as nat) + seq!['d']
    } else if secs >= 3_600 {
        decimal((secs / 3_600u64) as nat) + seq!['h']
    } else if secs >= 60 {
        decimal((secs / 60u64) as nat) + seq!['m']
    } else {
        decimal(secs as nat) + seq!['s']
    }
}

/// How long ago, in the largest unit it reaches.
pub fn age(secs: u64) -> (r: String)
    ensures
        r@ == age_of(secs),
{
    let (n, unit): (u64, &str) = if secs >= 365 * 86_400 {
        (secs / (365 * 86_400), "y")
    } else if secs >= 30 * 86_400 {
        (secs / (30 * 86_400), "mo")
    } else if secs >= 7 * 86_400 {
        (secs / (7 * 86_400), "w")
    } else if secs >= 86_400 {
        (secs / 86_400, "d")
    } else if secs >= 3_600 {
        (secs / 3_600, "h")
    } else if secs >= 60 {
        (secs / 60, "m")
    } else {
        (secs, "s")
    };
    let mut out = decimal_string(n);
    out.append(unit);
    proof {
        reveal_strlit("y");
        reveal_strlit("mo");
        reveal_strlit("w");
        reveal_strlit("d");
        reveal_strlit("h");
        reveal_strlit("m");
        reveal_strlit("s");
    }
    out
}


/// A key as the pane reads it.
#[derive(Debug, Clone, Copy, PartialEq, Eq, Structural)]
pub enum KeyCode {
    Char(char),
    Enter,
    Esc,
    Tab,
    BackTab,
    Left,
    Right,
    Up,
    Down,
    PageUp,
    PageDown,
    Home,
    End,
    Backspace,
    Other,
}

/// A key event: the key, whether control was held, and whether it is a
/// press (not a release or a repeat).
#[derive(Debug, Clone, Copy, PartialEq, Eq, Structural)]
pub struct Key {
    pub code: KeyCode,
    pub ctrl: bool,
    pub press: bool,
}

/// What a key asks of the pane.
#[derive(Debug, Clone, Copy, PartialEq, Eq, Structural)]
pub enum KeyAction {
    /// Not a press: nothing at all, the status line included.
    Ignore,
    /// The help screen is up: close it, or leave it.
    CloseHelp,
    StayInHelp,
    /// The search query line is open: the key edits it.
    Query(QueryAction),
    Quit,
    /// Move the list selection, or scroll the note, by this many rows.
    MoveBy(isize),
    /// Back (`true`) or forward in history.
    History(bool),
    Help,
    FocusList,
    FocusDetail,
    /// The next list mode (`true`) or the previous one.
    CycleMode(bool),
    /// The next link in the note (`true`) or the previous one.
    NextLink(bool),
    StartSearch,
    Edit,
    /// Copy the path (`false`) or a wikilink (`true`).
    Copy(bool),
    ToggleFrontmatter,
    Enter,
    Nothing,
}

/// What a key does to the open query line.
#[derive(Debug, Clone, Copy, PartialEq, Eq, Structural)]
pub enum QueryAction {
    Close,
    Quit,
    Clear,
    Backspace,
    Push(char),
    Nothing,
}

/// The query line's keys: enter or esc leave it, ctrl-c quits, ctrl-u
/// clears it, backspace deletes, and a plain char types.
pub open spec fn query_action_of(k: Key) -> QueryAction {
    match k.code {
        KeyCode::Enter | KeyCode::Esc => QueryAction::Close,
        KeyCode::Char(c) => if k.ctrl && c == 'c' {
            QueryAction::Quit
        } else if k.ctrl && c == 'u' {
            QueryAction::Clear
        } else if !k.ctrl {
            QueryAction::Push(c)
        } else {
            QueryAction::Nothing
        },
        KeyCode::Backspace => QueryAction::Backspace,
        _ => QueryAction::Nothing,
    }
}

pub fn query_action(k: Key) -> (r: QueryAction)
    ensures
        r == query_action_of(k),
{
    match k.code {
        KeyCode::Enter | KeyCode::Esc => QueryAction::Close,
        KeyCode::Char(c) => if k.ctrl && c == 'c' {
            QueryAction::Quit
        } else if k.ctrl && c == 'u' {
            QueryAction::Clear
        } else if !k.ctrl {
            QueryAction::Push(c)
        } else {
            QueryAction::Nothing
        },
        KeyCode::Backspace => QueryAction::Backspace,
        _ => QueryAction::Nothing,
    }
}

/// The pane's keys, given whether help is up, whether the query line is
/// open, and half the note panel's height.
pub open spec fn key_action_of(k: Key, help: bool, query_open: bool, half: isize) -> KeyAction {
    if !k.press {
        KeyAction::Ignore
    } else if help {
        if k.code == KeyCode::Esc || k.code == KeyCode::Char('?') || k.code == KeyCode::Char('q') {
            KeyAction::CloseHelp
        } else {
            KeyAction::StayInHelp
        }
    } else if query_open {
        KeyAction::Query(query_action_of(k))
    } else {
        match k.code {
            KeyCode::Char(c) => if k.ctrl && c == 'c' {
                KeyAction::Quit
            } else if k.ctrl && c == 'd' {
                KeyAction::MoveBy(half)
            } else if k.ctrl && c == 'u' {
                KeyAction::MoveBy((-half) as isize)
            } else if k.ctrl && c == 'o' {
                KeyAction::History(true)
            } else if c == 'q' {
                KeyAction::Quit
            } else if c == '?' {
                KeyAction::Help
            } else if c == 'h' {
                KeyAction::FocusList
            } else if c == 'l' {
                KeyAction::FocusDetail
            } else if c == 'j' {
                KeyAction::MoveBy(1isize)
            } else if c == 'k' {
                KeyAction::MoveBy(-1isize)
            } else if c == '[' {
                KeyAction::History(true)
            } else if c == ']' {
                KeyAction::History(false)
            } else if c == 'n' {
                KeyAction::NextLink(true)
            } else if c == 'N' {
                KeyAction::NextLink(false)
            } else if c == '/' {
                KeyAction::StartSearch
            } else if c == 'o' {
                KeyAction::Edit
            } else if c == 'y' {
                KeyAction::Copy(false)
            } else if c == 'Y' {
                KeyAction::Copy(true)
            } else if c == 'f' {
                KeyAction::ToggleFrontmatter
            } else {
                KeyAction::Nothing
            },
            KeyCode::Esc => KeyAction::FocusList,
            KeyCode::Tab => KeyAction::CycleMode(true),
            KeyCode::BackTab => KeyAction::CycleMode(false),
            KeyCode::Left => KeyAction::FocusList,
            KeyCode::Right => KeyAction::FocusDetail,
            KeyCode::Down => KeyAction::MoveBy(1isize),
            KeyCode::Up => KeyAction::MoveBy(-1isize),
            KeyCode::PageDown => KeyAction::MoveBy(half),
            KeyCode::PageUp => KeyAction::MoveBy((-half) as isize),
            KeyCode::Home => KeyAction::MoveBy((isize::MIN / 2) as isize),
            KeyCode::End => KeyAction::MoveBy((isize::MAX / 2) as isize),
            KeyCode::Enter => KeyAction::Enter,
            _ => KeyAction::Nothing,
        }
    }
}

/// Decides what a key does in the pane. `half` is half the note panel's
/// height, at least 1.
pub fn key_action(k: Key, help: bool, query_open: bool, half: isize) -> (r: KeyAction)
    requires
        half >= 1,
    ensures
        r == key_action_of(k, help, query_open, half),
{
    if !k.press {
        return KeyAction::Ignore;
    }
    if help {
        return if k.code == KeyCode::Esc || k.code == KeyCode::Char('?') || k.code == KeyCode::Char('q') {
            KeyAction::CloseHelp
        } else {
            KeyAction::StayInHelp
        };
    }
    if query_open {
        return KeyAction::Query(query_action(k));
    }
    match k.code {
        KeyCode::Char(c) => if k.ctrl && c == 'c' {
            KeyAction::Quit
        } else if k.ctrl && c == 'd' {
            KeyAction::MoveBy(half)
        } else if k.ctrl && c == 'u' {
            KeyAction::MoveBy(-half)
        } else if k.ctrl && c == 'o' {
            KeyAction::History(true)
        } else if c == 'q' {
            KeyAction::Quit
        } else if c == '?' {
            KeyAction::Help
        } else if c == 'h' {
            KeyAction::FocusList
        } else if c == 'l' {
            KeyAction::FocusDetail
        } else if c == 'j' {
            KeyAction::MoveBy(1)
        } else if c == 'k' {
            KeyAction::MoveBy(-1)
        } else if c == '[' {
            KeyAction::History(true)
        } else if c == ']' {
            KeyAction::History(false)
        } else if c == 'n' {
            KeyAction::NextLink(true)
        } else if c == 'N' {
            KeyAction::NextLink(false)
        } else if c == '/' {
            KeyAction::StartSearch
        } else if c == 'o' {
            KeyAction::Edit
        } else if c == 'y' {
            KeyAction::Copy(false)
        } else if c == 'Y' {
            KeyAction::Copy(true)
        } else if c == 'f' {
            KeyAction::ToggleFrontmatter
        } else {
            KeyAction::Nothing
        },
        KeyCode::Esc => KeyAction::FocusList,
        KeyCode::Tab => KeyAction::CycleMode(true),
        KeyCode::BackTab => KeyAction::CycleMode(false),
        KeyCode::Left => KeyAction::FocusList,
        KeyCode::Right => KeyAction::FocusDetail,
        KeyCode::Down => KeyAction::MoveBy(1),
        KeyCode::Up => KeyAction::MoveBy(-1),
        KeyCode::PageDown => KeyAction::MoveBy(half),
        KeyCode::PageUp => KeyAction::MoveBy(-half),
        KeyCode::Home => KeyAction::MoveBy(isize::MIN / 2),
        KeyCode::End => KeyAction::MoveBy(isize::MAX / 2),
        KeyCode::Enter => KeyAction::Enter,
        _ => KeyAction::Nothing,
    }
}

/// A mode's place in the cycle.
pub open spec fn mode_index(m: Mode) -> int {
    match m {
        Mode::Tree => 0,
        Mode::Backlinks => 1,
        Mode::Forward => 2,
        Mode::Tags => 3,
        Mode::Unresolved => 4,
        Mode::Orphans => 5,
        Mode::Recent => 6,
        Mode::Search => 7,
    }
}

fn mode_at(i: usize) -> (r: Mode)
    requires
        i < 8,
    ensures
        r == mode_of_index(i as int),
{
    match i {
        0 => Mode::Tree,
        1 => Mode::Backlinks,
        2 => Mode::Forward,
        3 => Mode::Tags,
        4 => Mode::Unresolved,
        5 => Mode::Orphans,
        6 => Mode::Recent,
        _ => Mode::Search,
    }
}

/// The mode after `m` (`forward`) or before it, round the cycle.
pub fn cycle_mode(m: Mode, forward: bool) -> (r: Mode)
    ensures
        r == cycled(m, forward),
{
    let i: usize = match m {
        Mode::Tree => 0,
        Mode::Backlinks => 1,
        Mode::Forward => 2,
        Mode::Tags => 3,
        Mode::Unresolved => 4,
        Mode::Orphans => 5,
        Mode::Recent => 6,
        Mode::Search => 7,
    };
    if forward {
        mode_at((i + 1) % 8)
    } else {
        mode_at((i + 7) % 8)
    }
}

/// The mode at a place in the cycle.
pub open spec fn mode_of_index(i: int) -> Mode {
    if i == 0 {
        Mode::Tree
    } else if i == 1 {
        Mode::Backlinks
    } else if i == 2 {
        Mode::Forward
    } else if i == 3 {
        Mode::Tags
    } else if i == 4 {
        Mode::Unresolved
    } else if i == 5 {
        Mode::Orphans
    } else if i == 6 {
        Mode::Recent
    } else {
        Mode::Search
    }
}

/// The mode a tab (`forward`) or a shift-tab reaches from `m`.
pub open spec fn cycled(m: Mode, forward: bool) -> Mode {
    mode_of_index(if forward { (mode_index(m) + 1) % 8 } else { (mode_index(m) + 7) % 8 })
}

/// A shift-tab undoes a tab, and a tab undoes a shift-tab.
pub proof fn lemma_cycle_undo(m: Mode)
    ensures
        cycled(cycled(m, true), false) == m,
        cycled(cycled(m, false), true) == m,
{
}

/// Eight tabs come back to where they started.
pub proof fn lemma_cycle_returns(m: Mode)
    ensures
        cycled(cycled(cycled(cycled(cycled(cycled(cycled(cycled(m, true), true), true), true), true), true), true), true) == m,
{
    let m1 = cycled(m, true);
    let m2 = cycled(m1, true);
    let m3 = cycled(m2, true);
    let m4 = cycled(m3, true);
    let m5 = cycled(m4, true);
    let m6 = cycled(m5, true);
    let m7 = cycled(m6, true);
    match m {
        Mode::Tree => { assert(m7 == Mode::Search); },
        Mode::Backlinks => { assert(m7 == Mode::Tree); },
        Mode::Forward => { assert(m7 == Mode::Backlinks); },
        Mode::Tags => { assert(m7 == Mode::Forward); },
        Mode::Unresolved => { assert(m7 == Mode::Tags); },
        Mode::Orphans => { assert(m7 == Mode::Unresolved); },
        Mode::Recent => { assert(m7 == Mode::Orphans); },
        Mode::Search => { assert(m7 == Mode::Recent); },
    }
}

/// The eight modes tabs visit from any mode are all different.
pub proof fn lemma_cycle_visits(m: Mode)
    ensures
        forall|j: int, k: int| 0 <= j < k < 8 ==> #[trigger] nth_after(m, j) != #[trigger] nth_after(m, k),
{
    assert forall|j: int, k: int| 0 <= j < k < 8 implies #[trigger] nth_after(m, j) != #[trigger] nth_after(m, k) by {
        let mi = mode_index(m);
        let a = if mi + j < 8 { mi + j } else { mi + j - 8 };
        let b = if mi + k < 8 { mi + k } else { mi + k - 8 };
        assert(a == (mi + j) % 8);
        assert(b == (mi + k) % 8);
        assert(mode_index(mode_of_index(a)) == a);
        assert(mode_index(mode_of_index(b)) == b);
    }
}

/// The mode `k` tabs after `m`.
pub open spec fn nth_after(m: Mode, k: int) -> Mode {
    mode_of_index((mode_index(m) + k) % 8)
}

/// The list selection after moving `delta` rows in a list of `len`,
/// kept in the list; `None` for an empty list.
pub open spec fn moved_selection(cur: usize, delta: isize, len: usize) -> Option<usize> {
    if len == 0 {
        None
    } else {
        let next = cur + delta;
        Some(
            if next < 0 {
                0
            } else if next > len - 1 {
                (len - 1) as usize
            } else {
                next as usize
            },
        )
    }
}

/// Moves the list selection, clamped to the list.
pub fn move_selection(cur: usize, delta: isize, len: usize) -> (r: Option<usize>)
    ensures
        r == moved_selection(cur, delta, len),
{
    if len == 0 {
        return None;
    }
    let c = cur as i128;
    let next = c + delta as i128;
    if next < 0 {
        Some(0)
    } else if next > (len - 1) as i128 {
        Some(len - 1)
    } else {
        Some(next as usize)
    }
}

/// Scrolls the note by `delta` rows, never above the top.
pub fn scroll_by(scroll: usize, delta: isize) -> (r: usize)
    ensures
        scroll + delta <= 0 ==> r == 0,
        0 < scroll + delta <= usize::MAX ==> r == scroll + delta,
        scroll + delta > usize::MAX ==> r == usize::MAX,
{
    let next = scroll as i128 + delta as i128;
    if next <= 0 {
        0
    } else if next > usize::MAX as i128 {
        usize::MAX
    } else {
        next as usize
    }
}


/// A page visited, and where it was scrolled to when left.
#[derive(Debug, Clone)]
pub struct Visit {
    pub page: Page,
    pub scroll: usize,
}

/// The pages visited, and which one is shown.
#[derive(Debug, Clone)]
pub struct History {
    pub visits: Vec<Visit>,
    pub cursor: usize,
}

/// The first visit from `c` on, going back (`back`) or forward, whose
/// page still exists.
pub open spec fn next_existing(exists: Seq<bool>, c: int, back: bool) -> Option<int>
    decreases (if back { c + 1 } else { exists.len() - c }),
{
    let n = if back { c - 1 } else { c + 1 };
    if n < 0 || n >= exists.len() {
        None
    } else if exists[n] {
        Some(n)
    } else {
        next_existing(exists, n, back)
    }
}

/// The visits after opening `page` from visit `c`, left at `scroll`.
pub open spec fn navigated(visits: Seq<Visit>, c: int, page: Page, scroll: usize) -> Seq<Visit> {
    visits.take(c + 1).update(c, Visit { page: visits[c].page, scroll }).push(Visit { page, scroll: 0 })
}

impl History {
    pub open spec fn wf(&self) -> bool {
        self.cursor < self.visits@.len()
    }

    /// A history that starts on the summary.
    pub fn new() -> (r: History)
        ensures
            r.wf(),
            r.visits@.len() == 1,
            r.visits@[0].page == Page::Summary,
            r.visits@[0].scroll == 0,
            r.cursor == 0,
    {
        let mut visits: Vec<Visit> = Vec::new();
        visits.push(Visit { page: Page::Summary, scroll: 0 });
        History { visits, cursor: 0 }
    }

    /// The page shown.
    pub fn page(&self) -> (r: &Page)
        requires
            self.wf(),
        ensures
            *r == self.visits@[self.cursor as int].page,
    {
        &self.visits[self.cursor].page
    }

    /// Opens `page`: the shown page keeps scroll position `scroll`, the
    /// pages ahead of it are dropped, and `page` is shown from the top.
    pub fn navigate(&mut self, page: Page, scroll: usize)
        requires
            old(self).wf(),
            old(self).cursor < usize::MAX,
        ensures
            final(self).wf(),
            final(self).cursor == old(self).cursor + 1,
            final(self).visits@ == navigated(old(self).visits@, old(self).cursor as int, page, scroll),
    {
        let c = self.cursor;
        let shown = self.visits[c].page.clone_page();
        self.visits.set(c, Visit { page: shown, scroll });
        self.visits.truncate(c + 1);
        self.visits.push(Visit { page, scroll: 0 });
        self.cursor = c + 1;
    }

    /// Goes back (`back`) or forward to the nearest visit whose page still
    /// exists (`exists`, one per visit), after noting scroll position
    /// `scroll` on the shown page. Returns the scroll position to restore;
    /// `None` at the start or end of history, where only the position is
    /// noted.
    pub fn step(&mut self, back: bool, scroll: usize, exists: &[bool]) -> (r: Option<usize>)
        requires
            old(self).wf(),
            exists@.len() == old(self).visits@.len(),
        ensures
            final(self).wf(),
            final(self).visits@ == old(self).visits@.update(
                old(self).cursor as int,
                Visit { page: old(self).visits@[old(self).cursor as int].page, scroll },
            ),
            match next_existing(exists@, old(self).cursor as int, back) {
                Some(c) => final(self).cursor == c && r == Some(final(self).visits@[c].scroll),
                None => final(self).cursor == old(self).cursor && r is None,
            },
    {
        let c0 = self.cursor;
        let shown = self.visits[c0].page.clone_page();
        self.visits.set(c0, Visit { page: shown, scroll });
        let ghost updated = self.visits@;
        let mut c = c0;
        loop
            invariant_except_break
                next_existing(exists@, c0 as int, back) == next_existing(exists@, c as int, back),
            invariant
                c < exists@.len(),
                exists@.len() == self.visits@.len(),
                self.cursor == c0,
                self.visits@ == updated,
                updated == old(self).visits@.update(
                    c0 as int,
                    Visit { page: old(self).visits@[c0 as int].page, scroll },
                ),
                c0 == old(self).cursor,
                c0 < exists@.len(),
            ensures
                c < exists@.len(),
                exists@[c as int],
                next_existing(exists@, c0 as int, back) == Some(c as int),
            decreases (if back { c + 1 } else { exists@.len() - c }),
        {
            let next: Option<usize> = if back {
                if c == 0 { None } else { Some(c - 1) }
            } else {
                if c < exists.len() - 1 { Some(c + 1) } else { None }
            };
            match next {
                None => {
                    return None;
                },
                Some(n) => {
                    let ghost before = c;
                    c = n;
                    if exists[c] {
                        assert(next_existing(exists@, before as int, back) == Some(c as int));
                        break;
                    }
                },
            }
        }
        self.cursor = c;
        Some(self.visits[c].scroll)
    }
}

impl Page {
    /// A copy of the page.
    pub fn clone_page(&self) -> (r: Page)
        ensures
            r == *self,
    {
        match self {
            Page::Summary => Page::Summary,
            Page::Note(s) => Page::Note(s.clone()),
            Page::Unresolved(s) => Page::Unresolved(s.clone()),
            Page::Ambiguous(s) => Page::Ambiguous(s.clone()),
            Page::Attachment(s) => Page::Attachment(s.clone()),
        }
    }
}

/// Opening a page and going back returns to the page shown before, at the
/// scroll position it was left at, when that page still exists.
pub proof fn lemma_back_undoes_navigate(h: History, page: Page, scroll: usize, exists: Seq<bool>)
    requires
        h.wf(),
        exists.len() == h.cursor + 2,
        exists[h.cursor as int],
    ensures
        next_existing(exists, h.cursor + 1, true) == Some(h.cursor as int),
        navigated(h.visits@, h.cursor as int, page, scroll)[h.cursor as int] == (Visit {
            page: h.visits@[h.cursor as int].page,
            scroll,
        }),
{
}


/// Two hits lead to the same link of the note.
pub open spec fn same_target_of(a: HitTarget, b: HitTarget) -> bool {
    match (a, b) {
        (HitTarget::Link(x), HitTarget::Link(y)) => x == y,
        _ => false,
    }
}

/// Hit `i` starts a link: segments of one wrapped link count once.
pub open spec fn starts_link(hits: Seq<Hit>, i: int) -> bool {
    i == 0 || !same_target_of(hits[i - 1].target, hits[i].target)
}

/// Which link starts a search for the next link may pick.
pub enum Want {
    /// One after hit `c`.
    After(int),
    /// One before hit `c`.
    Before(int),
    /// One on row `scroll` or below.
    Visible(int),
    Any,
}

pub open spec fn wanted(hits: Seq<Hit>, s: int, w: Want) -> bool {
    match w {
        Want::After(c) => s > c,
        Want::Before(c) => s < c,
        Want::Visible(scroll) => hits[s].line >= scroll,
        Want::Any => true,
    }
}

/// The first link start from hit `k` on that is wanted.
pub open spec fn first_start(hits: Seq<Hit>, k: int, w: Want) -> Option<int>
    decreases hits.len() - k,
{
    if k < 0 || k >= hits.len() {
        None
    } else if starts_link(hits, k) && wanted(hits, k, w) {
        Some(k)
    } else {
        first_start(hits, k + 1, w)
    }
}

/// The last link start before hit `k` that is wanted.
pub open spec fn last_start(hits: Seq<Hit>, k: int, w: Want) -> Option<int>
    decreases k,
{
    if k <= 0 || k > hits.len() {
        None
    } else if starts_link(hits, k - 1) && wanted(hits, k - 1, w) {
        Some(k - 1)
    } else {
        last_start(hits, k - 1, w)
    }
}

/// The link `n` (forward) or `N` selects: after or before the selected
/// one, or without one the first visible or the last; round the note when
/// there is none that way.
pub open spec fn next_link_of(hits: Seq<Hit>, selected: Option<usize>, forward: bool, scroll: usize) -> Option<int> {
    let n = hits.len() as int;
    let p = match selected {
        Some(c) => if forward { first_start(hits, 0, Want::After(c as int)) } else { last_start(hits, n, Want::Before(c as int)) },
        None => if forward { first_start(hits, 0, Want::Visible(scroll as int)) } else { last_start(hits, n, Want::Any) },
    };
    match p {
        Some(x) => Some(x),
        None => if forward { first_start(hits, 0, Want::Any) } else { last_start(hits, n, Want::Any) },
    }
}

fn starts_link_exec(hits: &[Hit], i: usize) -> (r: bool)
    requires
        i < hits@.len(),
    ensures
        r == starts_link(hits@, i as int),
{
    if i == 0 {
        return true;
    }
    match (&hits[i - 1].target, &hits[i].target) {
        (HitTarget::Link(x), HitTarget::Link(y)) => *x != *y,
        _ => true,
    }
}

fn wanted_exec(hits: &[Hit], s: usize, kind: u8, c: usize) -> (r: bool)
    requires
        s < hits@.len(),
    ensures
        kind == 0 ==> r == wanted(hits@, s as int, Want::After(c as int)),
        kind == 1 ==> r == wanted(hits@, s as int, Want::Before(c as int)),
        kind == 2 ==> r == wanted(hits@, s as int, Want::Visible(c as int)),
        kind >= 3 ==> r == wanted(hits@, s as int, Want::Any),
{
    if kind == 0 {
        s > c
    } else if kind == 1 {
        s < c
    } else if kind == 2 {
        hits[s].line >= c
    } else {
        true
    }
}

spec fn want_of(kind: u8, c: usize) -> Want {
    if kind == 0 {
        Want::After(c as int)
    } else if kind == 1 {
        Want::Before(c as int)
    } else if kind == 2 {
        Want::Visible(c as int)
    } else {
        Want::Any
    }
}

fn first_start_exec(hits: &[Hit], kind: u8, c: usize) -> (r: Option<usize>)
    ensures
        match first_start(hits@, 0, want_of(kind, c)) {
            Some(x) => r == Some(x as usize),
            None => r is None,
        },
{
    let mut k: usize = 0;
    while k < hits.len()
        invariant
            k <= hits@.len(),
            first_start(hits@, 0, want_of(kind, c)) == first_start(hits@, k as int, want_of(kind, c)),
        decreases hits.len() - k,
    {
        if starts_link_exec(hits, k) && wanted_exec(hits, k, kind, c) {
            return Some(k);
        }
        k = k + 1;
    }
    None
}

fn last_start_exec(hits: &[Hit], kind: u8, c: usize) -> (r: Option<usize>)
    ensures
        match last_start(hits@, hits@.len() as int, want_of(kind, c)) {
            Some(x) => r == Some(x as usize),
            None => r is None,
        },
{
    let mut k: usize = hits.len();
    while k > 0
        invariant
            k <= hits@.len(),
            last_start(hits@, hits@.len() as int, want_of(kind, c)) == last_start(hits@, k as int, want_of(kind, c)),
        decreases k,
    {
        if starts_link_exec(hits, k - 1) && wanted_exec(hits, k - 1, kind, c) {
            return Some(k - 1);
        }
        k = k - 1;
    }
    None
}

/// The hit `n` (forward) or `N` selects in the note's hits.
pub fn next_link(hits: &[Hit], selected: Option<usize>, forward: bool, scroll: usize) -> (r: Option<usize>)
    ensures
        match next_link_of(hits@, selected, forward, scroll) {
            Some(x) => r == Some(x as usize),
            None => r is None,
        },
{
    let p = match selected {
        Some(c) => if forward { first_start_exec(hits, 0, c) } else { last_start_exec(hits, 1, c) },
        None => if forward { first_start_exec(hits, 2, scroll) } else { last_start_exec(hits, 3, 0) },
    };
    match p {
        Some(x) => Some(x),
        None => if forward { first_start_exec(hits, 3, 0) } else { last_start_exec(hits, 3, 0) },
    }
}

/// The scroll position that shows row `line` of a panel `height` rows
/// high: unchanged when it is in view, else with the row a third down.
pub fn scroll_to_show(line: usize, scroll: usize, height: usize) -> (r: usize)
    ensures
        scroll <= line && line - scroll < height ==> r == scroll,
        !(scroll <= line && line - scroll < height) ==> r == (if line >= height / 3 { line - height / 3 } else { 0 }),
{
    if line < scroll || line - scroll >= height {
        if line >= height / 3 {
            line - height / 3
        } else {
            0
        }
    } else {
        scroll
    }
}

} // verus!
