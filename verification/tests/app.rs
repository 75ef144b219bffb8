use knapp::tui::app::{age, cycle_mode, key_action, move_selection, next_link, query_action, scroll_by, scroll_to_show, History, Hit, HitTarget, Key, KeyAction, KeyCode, Mode, Page, QueryAction};

fn press(code: KeyCode) -> Key {
    Key { code, ctrl: false, press: true }
}

fn ctrl(c: char) -> Key {
    Key { code: KeyCode::Char(c), ctrl: true, press: true }
}

#[test]
fn age_units() {
    assert_eq!(age(0), "0s");
    assert_eq!(age(59), "59s");
    assert_eq!(age(60), "1m");
    assert_eq!(age(3_599), "59m");
    assert_eq!(age(3_600), "1h");
    assert_eq!(age(86_400), "1d");
    assert_eq!(age(7 * 86_400), "1w");
    assert_eq!(age(30 * 86_400), "1mo");
    assert_eq!(age(365 * 86_400), "1y");
    assert_eq!(age(800 * 86_400), "2y");
}

#[test]
fn tab_visits_every_mode_in_order() {
    let mut m = Mode::Tree;
    let mut seen = Vec::new();
    for _ in 0..8 {
        seen.push(m.name());
        m = cycle_mode(m, true);
    }
    assert_eq!(seen, ["Tree", "Backlinks", "Forward", "Tags", "Unresolved", "Orphans", "Recent", "Search"]);
    assert_eq!(m, Mode::Tree);
    assert_eq!(cycle_mode(Mode::Tree, false), Mode::Search);
    assert_eq!(Mode::all().len(), 8);
}

#[test]
fn quit_keys() {
    assert_eq!(key_action(press(KeyCode::Char('q')), false, false, 5), KeyAction::Quit);
    assert_eq!(key_action(ctrl('c'), false, false, 5), KeyAction::Quit);
    assert_eq!(key_action(ctrl('c'), false, true, 5), KeyAction::Query(QueryAction::Quit));
    let release = Key { code: KeyCode::Char('q'), ctrl: false, press: false };
    assert_eq!(key_action(release, false, false, 5), KeyAction::Ignore);
}

#[test]
fn help_opens_and_closes() {
    assert_eq!(key_action(press(KeyCode::Char('?')), false, false, 5), KeyAction::Help);
    assert_eq!(key_action(press(KeyCode::Esc), true, false, 5), KeyAction::CloseHelp);
    assert_eq!(key_action(press(KeyCode::Char('j')), true, false, 5), KeyAction::StayInHelp);
}

#[test]
fn movement_keys() {
    assert_eq!(key_action(ctrl('d'), false, false, 5), KeyAction::MoveBy(5));
    assert_eq!(key_action(ctrl('u'), false, false, 5), KeyAction::MoveBy(-5));
    assert_eq!(key_action(press(KeyCode::Up), false, false, 5), KeyAction::MoveBy(-1));
    assert_eq!(key_action(press(KeyCode::Char('o')), false, false, 5), KeyAction::Edit);
    assert_eq!(key_action(ctrl('o'), false, false, 5), KeyAction::History(true));
    assert_eq!(key_action(press(KeyCode::Char('d')), false, false, 5), KeyAction::Nothing);
    assert_eq!(move_selection(3, -10, 8), Some(0));
    assert_eq!(move_selection(3, isize::MAX / 2, 8), Some(7));
    assert_eq!(move_selection(3, 2, 8), Some(5));
    assert_eq!(move_selection(0, 1, 0), None);
    assert_eq!(scroll_by(2, -5), 0);
    assert_eq!(scroll_by(2, 3), 5);
}

#[test]
fn search_query_line_and_stale_results() {
    assert_eq!(query_action(press(KeyCode::Char('a'))), QueryAction::Push('a'));
    assert_eq!(query_action(press(KeyCode::Backspace)), QueryAction::Backspace);
    assert_eq!(query_action(ctrl('u')), QueryAction::Clear);
    assert_eq!(query_action(press(KeyCode::Enter)), QueryAction::Close);
    assert_eq!(query_action(ctrl('x')), QueryAction::Nothing);
    assert_eq!(key_action(press(KeyCode::Char('/')), false, false, 5), KeyAction::StartSearch);
}

fn hit(line: usize, link: usize) -> Hit {
    Hit { line, cols: 0..3, target: HitTarget::Link(link) }
}

#[test]
fn links_cycle_and_wrapped_links_count_once() {
    // Link 1 wraps over two lines.
    let hits = vec![hit(0, 0), hit(3, 1), hit(4, 1), hit(9, 2)];
    assert_eq!(next_link(&hits, None, true, 2), Some(1));
    assert_eq!(next_link(&hits, Some(1), true, 0), Some(3));
    assert_eq!(next_link(&hits, Some(3), true, 0), Some(0));
    assert_eq!(next_link(&hits, Some(3), false, 0), Some(1));
    assert_eq!(next_link(&hits, None, false, 0), Some(3));
    assert_eq!(next_link(&[], None, true, 0), None);
    assert_eq!(scroll_to_show(20, 0, 10), 17);
    assert_eq!(scroll_to_show(5, 0, 10), 0);
}

#[test]
fn history_goes_back_and_forward() {
    let mut h = History::new();
    h.navigate(Page::Note("a.md".into()), 4);
    h.navigate(Page::Note("b.md".into()), 7);
    assert_eq!(h.page(), &Page::Note("b.md".into()));
    // a.md was deleted: going back skips it to the summary.
    assert_eq!(h.step(true, 1, &[true, false, true]), Some(4));
    assert_eq!(h.page(), &Page::Summary);
    assert_eq!(h.step(true, 0, &[true, true, true]), None);
    assert_eq!(h.step(false, 0, &[true, true, true]), Some(7));
    assert_eq!(h.page(), &Page::Note("a.md".into()));
    h.navigate(Page::Unresolved("x".into()), 2);
    assert_eq!(h.visits.len(), 3);
    assert_eq!(h.step(false, 0, &[true, true, true]), None);
}
