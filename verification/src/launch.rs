//! `open-pane`: open, focus, or close the notes pane in the focused tab.

use vstd::prelude::*;

use crate::paths::{path_comps, path_comps_exec};
use crate::send::{pane_id_shaped, valid_pane_id};
use crate::text::{opt_string_view, owned, strs_eq};

verus! {

/// The `[[panes]] title` of the notes pane in herdr-plugin.toml.
pub const PANE_TITLE: &'static str = "Knapp";

/// One pane of `herdr pane list`, its working directory made canonical.
#[derive(Debug, Clone)]
pub struct Pane {
    pub pane_id: String,
    pub tab_id: String,
    pub focused: bool,
    pub label: Option<String>,
    pub cwd: Option<String>,
}

#[derive(Debug, Clone, PartialEq, Eq)]
pub enum Decision {
    /// Open beside this pane.
    Open { beside: String },
    Focus(String),
    Close(String),
}

/// The first pane with property `p`.
pub open spec fn first_pane(panes: Seq<Pane>, p: spec_fn(Pane) -> bool, i: int) -> Option<int>
    decreases panes.len() - i,
{
    if i < 0 || i >= panes.len() {
        None
    } else if p(panes[i]) {
        Some(i)
    } else {
        first_pane(panes, p, i + 1)
    }
}

/// A knapp pane in the focused pane's tab: labelled `Knapp`, running in the
/// plugin root.
pub open spec fn is_ours(p: Pane, tab: Seq<char>, root: Seq<char>) -> bool {
    p.tab_id@ == tab && opt_string_view(p.label) == Some(seq!['K', 'n', 'a', 'p', 'p']) && match p.cwd {
        Some(c) => path_comps(c@) == path_comps(root),
        None => false,
    }
}

/// A pane id herdr could have made, or the error that refuses it.
pub open spec fn checked_id(id: Seq<char>) -> Result<Seq<char>, Seq<char>> {
    if pane_id_shaped(id) {
        Ok(id)
    } else {
        Err("unexpected pane id `"@ + id + "`"@)
    }
}

/// What `open-pane` does: close our pane when it is focused, focus it when
/// it is not, open one beside the focused pane when there is none. `Err`
/// when no pane is focused or an id is not shaped like herdr's.
pub open spec fn decide_of(panes: Seq<Pane>, root: Seq<char>) -> Result<(u8, Seq<char>), Seq<char>> {
    match first_pane(panes, |p: Pane| p.focused, 0) {
        None => Err("no focused pane"@),
        Some(f) => {
            let focused = panes[f];
            match first_pane(panes, |p: Pane| is_ours(p, focused.tab_id@, root), 0) {
                None => match checked_id(focused.pane_id@) {
                    Ok(id) => Ok((0, id)),
                    Err(e) => Err(e),
                },
                Some(o) => match checked_id(panes[o].pane_id@) {
                    Ok(id) => Ok((if panes[o].focused { 2u8 } else { 1u8 }, id)),
                    Err(e) => Err(e),
                },
            }
        },
    }
}

/// A decision as plain values: 0 open beside, 1 focus, 2 close.
pub open spec fn decision_view(d: Decision) -> (u8, Seq<char>) {
    match d {
        Decision::Open { beside } => (0, beside@),
        Decision::Focus(id) => (1, id@),
        Decision::Close(id) => (2, id@),
    }
}

fn checked(id: &str) -> (r: Result<String, String>)
    ensures
        match r {
            Ok(s) => pane_id_shaped(id@) && s@ == id@,
            Err(e) => !pane_id_shaped(id@) && e@ == "unexpected pane id `"@ + id@ + "`"@,
        },
{
    if valid_pane_id(id) {
        Ok(owned(id))
    } else {
        let mut msg = owned("unexpected pane id `");
        msg.append(id);
        crate::text::push_char(&mut msg, '`');
        proof {
            reveal_strlit("`");
        }
        assert(msg@ =~= "unexpected pane id `"@ + id@ + "`"@);
        Err(msg)
    }
}

fn same_dir(a: &str, b: &str) -> (r: bool)
    ensures
        r == (path_comps(a@) == path_comps(b@)),
{
    let ac = crate::text::chars_of(a);
    let bc = crate::text::chars_of(b);
    let x = path_comps_exec(ac.as_slice());
    let y = path_comps_exec(bc.as_slice());
    let ghost xv = x@.map_values(|v: Vec<char>| v@);
    let ghost yv = y@.map_values(|v: Vec<char>| v@);
    assert(xv =~= path_comps(a@));
    assert(yv =~= path_comps(b@));
    if x.len() != y.len() {
        assert(xv.len() != yv.len());
        return false;
    }
    let mut i: usize = 0;
    while i < x.len()
        invariant
            x@.len() == y@.len(),
            i <= x@.len(),
            xv == x@.map_values(|v: Vec<char>| v@),
            yv == y@.map_values(|v: Vec<char>| v@),
            forall|k: int| 0 <= k < i ==> xv[k] == yv[k],
            xv == path_comps(a@),
            yv == path_comps(b@),
        decreases x.len() - i,
    {
        if !crate::text::chars_eq(x[i].as_slice(), y[i].as_slice()) {
            assert(xv[i as int] != yv[i as int]);
            return false;
        }
        i = i + 1;
    }
    assert(xv =~= yv);
    true
}

/// From the pane list (each cwd canonical) and the canonical plugin root:
/// a knapp pane in the focused pane's tab is a pane labelled `Knapp` whose
/// cwd is the plugin root.
pub fn decide(panes: &[Pane], plugin_root: &str) -> (r: Result<Decision, String>)
    ensures
        match r {
            Ok(d) => decide_of(panes@, plugin_root@) == Ok::<(u8, Seq<char>), Seq<char>>(decision_view(d)),
            Err(e) => decide_of(panes@, plugin_root@) == Err::<(u8, Seq<char>), Seq<char>>(e@),
        },
{
    let ghost root = plugin_root@;
    let mut f: usize = 0;
    while f < panes.len() && !panes[f].focused
        invariant
            f <= panes@.len(),
            first_pane(panes@, |p: Pane| p.focused, 0) == first_pane(panes@, |p: Pane| p.focused, f as int),
        decreases panes.len() - f,
    {
        f = f + 1;
    }
    if f == panes.len() {
        return Err(owned("no focused pane"));
    }
    assert(first_pane(panes@, |p: Pane| p.focused, f as int) == Some(f as int));
    let focused = &panes[f];
    let ghost tab = focused.tab_id@;
    let ghost ours = |p: Pane| is_ours(p, tab, root);
    proof {
        reveal_strlit("Knapp");
        assert("Knapp"@ =~= seq!['K', 'n', 'a', 'p', 'p']);
    }
    let mut o: usize = 0;
    while o < panes.len()
        invariant
            o <= panes@.len(),
            f < panes@.len(),
            tab == panes@[f as int].tab_id@,
            root == plugin_root@,
            ours == (|p: Pane| is_ours(p, tab, root)),
            first_pane(panes@, ours, 0) == first_pane(panes@, ours, o as int),
            PANE_TITLE@ == seq!['K', 'n', 'a', 'p', 'p'],
        ensures
            o <= panes@.len(),
            first_pane(panes@, ours, 0) == first_pane(panes@, ours, o as int),
            o < panes@.len() ==> ours(panes@[o as int]),
        decreases panes.len() - o,
    {
        let p = &panes[o];
        let same_tab = strs_eq(p.tab_id.as_str(), panes[f].tab_id.as_str());
        let labelled = match &p.label {
            Some(l) => strs_eq(l.as_str(), PANE_TITLE),
            None => false,
        };
        let here = match &p.cwd {
            Some(c) => same_dir(c.as_str(), plugin_root),
            None => false,
        };
        assert((same_tab && labelled && here) == ours(panes@[o as int]));
        if same_tab && labelled && here {
            break;
        }
        o = o + 1;
    }
    if o == panes.len() {
        assert(first_pane(panes@, ours, o as int) is None);
        return match checked(focused.pane_id.as_str()) {
            Ok(id) => Ok(Decision::Open { beside: id }),
            Err(e) => Err(e),
        };
    }
    assert(first_pane(panes@, ours, o as int) == Some(o as int));
    let p = &panes[o];
    match checked(p.pane_id.as_str()) {
        Ok(id) => if p.focused {
            Ok(Decision::Close(id))
        } else {
            Ok(Decision::Focus(id))
        },
        Err(e) => Err(e),
    }
}

} // verus!
