use knapp::launch::{decide, Decision, Pane};

const ROOT: &str = "/plugins/knapp";

fn pane(id: &str, tab: &str, label: Option<&str>, cwd: Option<&str>) -> Pane {
    Pane { pane_id: id.into(), tab_id: tab.into(), focused: false, label: label.map(Into::into), cwd: cwd.map(Into::into) }
}

/// Tab w1:t1 has a knapp pane (w1:p2); in tab w1:t2, w1:p4 is labelled
/// Knapp but runs elsewhere, and w1:p3 is ours.
fn list(focus: &str) -> Vec<Pane> {
    let mut panes = vec![
        pane("w1:p1", "w1:t1", None, Some("/home/u/project")),
        pane("w1:p2", "w1:t1", Some("Knapp"), Some(ROOT)),
        pane("w1:p3", "w1:t2", Some("Knapp"), Some("/plugins/knapp/")),
        pane("w1:p4", "w1:t2", Some("Knapp"), Some("/plugins/other")),
    ];
    for p in &mut panes {
        p.focused = p.pane_id == focus;
    }
    panes
}

#[test]
fn focus_close_and_open() {
    assert_eq!(decide(&list("w1:p1"), ROOT).unwrap(), Decision::Focus("w1:p2".into()));
    assert_eq!(decide(&list("w1:p2"), ROOT).unwrap(), Decision::Close("w1:p2".into()));
    assert_eq!(decide(&list("w1:p4"), ROOT).unwrap(), Decision::Focus("w1:p3".into()));
}

#[test]
fn opens_beside_the_focused_pane_when_none() {
    let mut panes = list("w1:p1");
    for p in &mut panes {
        if p.label.as_deref() == Some("Knapp") {
            p.label = Some("Other".into());
        }
    }
    assert_eq!(decide(&panes, ROOT).unwrap(), Decision::Open { beside: "w1:p1".into() });
}

#[test]
fn odd_pane_ids_never_reach_an_argv() {
    let mut panes = list("w1:p1");
    panes[1].pane_id = "w1:p2 --x".into();
    assert!(decide(&panes, ROOT).is_err());
}

#[test]
fn no_focused_pane_is_an_error() {
    assert_eq!(decide(&list("none"), ROOT).unwrap_err(), "no focused pane");
    assert!(decide(&[], ROOT).is_err());
}

#[test]
fn an_odd_pane_id_is_named_in_the_error() {
    let mut panes = list("w1:p1");
    panes[1].pane_id = "w1:p2 --x".into();
    assert_eq!(decide(&panes, ROOT).unwrap_err(), "unexpected pane id `w1:p2 --x`");
}
