//! What knapp reads of herdr's context and agents, the arguments it hands
//! herdr, and PNG sizes for pane graphics.

use vstd::prelude::*;

use crate::text::{opt_string_view, opt_view, owned, push_char, strs_eq, views};

verus! {

/// The fields of `HERDR_PLUGIN_CONTEXT_JSON` knapp reads.
#[derive(Debug, Default, Clone)]
pub struct Context {
    pub workspace_id: Option<String>,
    pub workspace_cwd: Option<String>,
    pub focused_pane_id: Option<String>,
    pub selected_text: Option<String>,
    pub clicked_url: Option<String>,
}

#[derive(Debug, Clone)]
pub struct Agent {
    pub pane_id: String,
    pub workspace_id: String,
    pub focused: bool,
    pub cwd: Option<String>,
    /// The kind of agent the pane runs, as herdr names it.
    pub agent: Option<String>,
    pub agent_status: Option<String>,
}

/// `<kind> <pane>`, `agent` when the kind is unknown.
pub open spec fn label_of(a: Agent) -> Seq<char> {
    let kind = match a.agent {
        Some(k) => k@,
        None => seq!['a', 'g', 'e', 'n', 't'],
    };
    kind + seq![' '] + a.pane_id@
}

impl Agent {
    pub fn label(&self) -> (r: String)
        ensures
            r@ == label_of(*self),
    {
        let mut out = match &self.agent {
            Some(k) => owned(k.as_str()),
            None => {
                proof {
                    reveal_strlit("agent");
                }
                owned("agent")
            },
        };
        push_char(&mut out, ' ');
        out.append(self.pane_id.as_str());
        out
    }
}

/// The first of the workspace's agents with property `p`.
pub open spec fn first_agent(agents: Seq<Agent>, ws: Seq<char>, p: spec_fn(Agent) -> bool, i: int) -> Option<int>
    decreases agents.len() - i,
{
    if i < 0 || i >= agents.len() {
        None
    } else if agents[i].workspace_id@ == ws && p(agents[i]) {
        Some(i)
    } else {
        first_agent(agents, ws, p, i + 1)
    }
}

/// The workspace's agent: the focused pane if it is one, else the focused
/// agent, else the first.
pub open spec fn pick_agent_of(agents: Seq<Agent>, ws: Seq<char>, focused: Option<Seq<char>>) -> Option<int> {
    match first_agent(agents, ws, |a: Agent| Some(a.pane_id@) == focused, 0) {
        Some(i) => Some(i),
        None => match first_agent(agents, ws, |a: Agent| a.focused, 0) {
            Some(i) => Some(i),
            None => first_agent(agents, ws, |a: Agent| true, 0),
        },
    }
}

fn first_agent_exec(agents: &[Agent], ws: &str, focused: Option<&str>, which: u8) -> (r: Option<usize>)
    ensures
        ({
            let p = if which == 0 {
                |a: Agent| Some(a.pane_id@) == opt_view(focused)
            } else if which == 1 {
                |a: Agent| a.focused
            } else {
                |a: Agent| true
            };
            match r {
                Some(i) => first_agent(agents@, ws@, p, 0) == Some(i as int) && i < agents@.len(),
                None => first_agent(agents@, ws@, p, 0) is None,
            }
        }),
{
    let ghost p = if which == 0 {
        |a: Agent| Some(a.pane_id@) == opt_view(focused)
    } else if which == 1 {
        |a: Agent| a.focused
    } else {
        |a: Agent| true
    };
    let mut i: usize = 0;
    while i < agents.len()
        invariant
            i <= agents@.len(),
            p == (if which == 0 {
                |a: Agent| Some(a.pane_id@) == opt_view(focused)
            } else if which == 1 {
                |a: Agent| a.focused
            } else {
                |a: Agent| true
            }),
            first_agent(agents@, ws@, p, 0) == first_agent(agents@, ws@, p, i as int),
        decreases agents.len() - i,
    {
        let a = &agents[i];
        let mine = strs_eq(a.workspace_id.as_str(), ws);
        let hit = if which == 0 {
            match focused {
                Some(f) => strs_eq(a.pane_id.as_str(), f),
                None => false,
            }
        } else if which == 1 {
            a.focused
        } else {
            true
        };
        assert(hit == p(agents@[i as int]));
        if mine && hit {
            return Some(i);
        }
        i = i + 1;
    }
    None
}

/// The workspace's agent: the focused pane if it is one, else the focused
/// agent, else the first.
pub fn pick_agent<'a>(agents: &'a [Agent], workspace_id: &str, focused_pane: Option<&str>) -> (r: Option<&'a Agent>)
    ensures
        match (r, pick_agent_of(agents@, workspace_id@, opt_view(focused_pane))) {
            (Some(a), Some(i)) => *a == agents@[i],
            (None, None) => true,
            _ => false,
        },
{
    let i = match first_agent_exec(agents, workspace_id, focused_pane, 0) {
        Some(i) => Some(i),
        None => match first_agent_exec(agents, workspace_id, focused_pane, 1) {
            Some(i) => Some(i),
            None => first_agent_exec(agents, workspace_id, focused_pane, 2),
        },
    };
    match i {
        Some(i) => Some(&agents[i]),
        None => None,
    }
}

/// The last component of `comps` from `i` down named `plugins`.
pub open spec fn last_plugins(comps: Seq<Seq<char>>, i: int) -> Option<int>
    decreases i + 1,
{
    if i < 0 || i >= comps.len() {
        None
    } else if comps[i] == seq!['p', 'l', 'u', 'g', 'i', 'n', 's'] {
        Some(i)
    } else {
        last_plugins(comps, i - 1)
    }
}

/// Herdr's managed plugin directory, as components: the nearest folder
/// named `plugins` holding the plugin's config directory.
pub open spec fn plugins_comps(config_dir: Option<Seq<char>>) -> Option<Seq<Seq<char>>> {
    match config_dir {
        Some(c) => {
            let comps = crate::paths::path_comps(c);
            match last_plugins(comps, comps.len() - 1) {
                Some(i) => Some(comps.take(i + 1)),
                None => None,
            }
        },
        None => None,
    }
}

/// A directory roots may resolve against: one that exists (is among
/// `dirs`) and is not inside herdr's plugin directory.
pub open spec fn usable_dir(p: Option<Seq<char>>, plugins: Option<Seq<Seq<char>>>, dirs: Seq<Seq<char>>) -> Option<Seq<char>> {
    match p {
        Some(x) => if dirs.contains(x) && !(plugins matches Some(b) && b.len() <= crate::paths::path_comps(x).len()
            && crate::paths::path_comps(x).take(b.len() as int) == b) {
            Some(x)
        } else {
            None
        },
        None => None,
    }
}

/// The workspace agent's directory when usable, else the workspace's.
pub open spec fn workspace_dir_of(ctx: Context, agents: Seq<Agent>, config_dir: Option<Seq<char>>, dirs: Seq<Seq<char>>) -> Option<
    Seq<char>,
> {
    let agent_cwd = match ctx.workspace_id {
        Some(w) => match pick_agent_of(agents, w@, opt_string_view(ctx.focused_pane_id)) {
            Some(i) => opt_string_view(agents[i].cwd),
            None => None,
        },
        None => None,
    };
    let plugins = plugins_comps(config_dir);
    match usable_dir(agent_cwd, plugins, dirs) {
        Some(x) => Some(x),
        None => usable_dir(opt_string_view(ctx.workspace_cwd), plugins, dirs),
    }
}

fn plugins_comps_exec(config_dir: Option<&str>) -> (r: Option<Vec<Vec<char>>>)
    ensures
        match (r, plugins_comps(opt_view(config_dir))) {
            (Some(v), Some(c)) => v@.map_values(|x: Vec<char>| x@) == c,
            (None, None) => true,
            _ => false,
        },
{
    let c = match config_dir {
        Some(c) => c,
        None => return None,
    };
    let cc = crate::text::chars_of(c);
    let mut comps = crate::paths::path_comps_exec(cc.as_slice());
    let ghost cv = comps@.map_values(|x: Vec<char>| x@);
    let mut i: usize = comps.len();
    while i > 0
        invariant
            i <= comps@.len(),
            cv == comps@.map_values(|x: Vec<char>| x@),
            cv == crate::paths::path_comps(c@),
            opt_view(config_dir) == Some(c@),
            last_plugins(cv, cv.len() - 1) == last_plugins(cv, i - 1),
        decreases i,
    {
        assert(cv[i - 1] == comps@[i - 1]@);
        proof {
            reveal_strlit("plugins");
            assert("plugins"@ =~= seq!['p', 'l', 'u', 'g', 'i', 'n', 's']);
        }
        if crate::text::is(comps[i - 1].as_slice(), "plugins") {
            assert(cv[i - 1] == seq!['p', 'l', 'u', 'g', 'i', 'n', 's']);
            assert(last_plugins(cv, i - 1) == Some(i - 1));
            assert(opt_view(config_dir) == Some(c@));
            comps.truncate(i);
            assert(comps@.map_values(|x: Vec<char>| x@) =~= cv.take(i as int));
            return Some(comps);
        }
        i = i - 1;
    }
    None
}

fn usable_exec(p: Option<&str>, plugins: &Option<Vec<Vec<char>>>, dirs: &[String]) -> (r: Option<String>)
    ensures
        opt_string_view(r) == usable_dir(
            opt_view(p),
            match plugins {
                Some(v) => Some(v@.map_values(|x: Vec<char>| x@)),
                None => None,
            },
            views(dirs@),
        ),
{
    let x = match p {
        Some(x) => x,
        None => return None,
    };
    let mut found = false;
    let mut k: usize = 0;
    while k < dirs.len()
        invariant
            k <= dirs@.len(),
            found == (exists|q: int| 0 <= q < k && views(dirs@)[q] == x@),
        decreases dirs.len() - k,
    {
        assert(views(dirs@)[k as int] == dirs@[k as int]@);
        if strs_eq(dirs[k].as_str(), x) {
            found = true;
        }
        k = k + 1;
    }
    assert(found == views(dirs@).contains(x@));
    if !found {
        return None;
    }
    if let Some(b) = plugins {
        let ghost bv = b@.map_values(|v: Vec<char>| v@);
        let xc = crate::text::chars_of(x);
        let xs = crate::paths::path_comps_exec(xc.as_slice());
        let ghost xv = xs@.map_values(|v: Vec<char>| v@);
        if b.len() <= xs.len() {
            let mut same = true;
            let mut j: usize = 0;
            while j < b.len()
                invariant
                    j <= b@.len(),
                    b@.len() <= xs@.len(),
                    bv == b@.map_values(|v: Vec<char>| v@),
                    xv == xs@.map_values(|v: Vec<char>| v@),
                    same == (forall|q: int| 0 <= q < j ==> xv[q] == bv[q]),
                decreases b.len() - j,
            {
                assert(xv[j as int] == xs@[j as int]@ && bv[j as int] == b@[j as int]@);
                let eq = crate::text::chars_eq(xs[j].as_slice(), b[j].as_slice());
                same = same && eq;
                j = j + 1;
            }
            proof {
                if same {
                    assert(xv.take(bv.len() as int) =~= bv);
                } else {
                    let q = choose|q: int| 0 <= q < bv.len() && xv[q] != bv[q];
                    assert(xv.take(bv.len() as int)[q] != bv[q]);
                }
            }
            if same {
                return None;
            }
        }
    }
    Some(owned(x))
}

/// The directory a pane's relative roots resolve against, when herdr
/// launched it: the workspace agent's directory, else the workspace's,
/// each only when it exists (`dirs` lists the candidates that do) and is
/// not inside herdr's plugin directory (found from `config_dir`,
/// `HERDR_PLUGIN_CONFIG_DIR`).
pub fn workspace_dir(ctx: &Context, agents: &[Agent], config_dir: Option<&str>, dirs: &[String]) -> (r: Option<String>)
    ensures
        opt_string_view(r) == workspace_dir_of(*ctx, agents@, opt_view(config_dir), views(dirs@)),
{
    let plugins = plugins_comps_exec(config_dir);
    let agent = match &ctx.workspace_id {
        Some(w) => pick_agent(agents, w.as_str(), match &ctx.focused_pane_id {
            Some(f) => Some(f.as_str()),
            None => None,
        }),
        None => None,
    };
    let agent_cwd: Option<&str> = match agent {
        Some(a) => match &a.cwd {
            Some(c) => Some(c.as_str()),
            None => None,
        },
        None => None,
    };
    match usable_exec(agent_cwd, &plugins, dirs) {
        Some(x) => Some(x),
        None => usable_exec(
            match &ctx.workspace_cwd {
                Some(c) => Some(c.as_str()),
                None => None,
            },
            &plugins,
            dirs,
        ),
    }
}

/// What serde_json reads of a JSON text with an `error` field: `None`
/// when the text is not JSON or has no such field; else the field's `code`
/// and `message`, each where it is a string.
pub uninterp spec fn json_error_of(text: Seq<char>) -> Option<(Option<Seq<char>>, Option<Seq<char>>)>;

/// serde_json's `from_str` into a `Value`, then `get("error")` and `get`
/// and `as_str` on its `code` and `message`. The contract names the result
/// and says no more of it.
#[verifier::external_body]
fn json_error(text: &str) -> (r: Option<(Option<String>, Option<String>)>)
    ensures
        match r {
            Some((c, m)) => json_error_of(text@) == Some((opt_string_view(c), opt_string_view(m))),
            None => json_error_of(text@) is None,
        },
{
    let v: serde_json::Value = serde_json::from_str(text).ok()?;
    let e = v.get("error")?;
    let s = |k: &str| e.get(k).and_then(serde_json::Value::as_str).map(str::to_string);
    Some((s("code"), s("message")))
}

/// What serde_json says of a text that is not JSON: its error, shown.
pub uninterp spec fn json_parse_error_of(text: Seq<char>) -> Option<Seq<char>>;

/// serde_json's `from_str` into a `Value`, and the error it gives, shown
/// with `to_string`; `None` when the text is JSON. The contract names the
/// result and says no more of it.
#[verifier::external_body]
fn json_parse_error(text: &str) -> (r: Option<String>)
    ensures
        match r {
            Some(e) => json_parse_error_of(text@) == Some(e@),
            None => json_parse_error_of(text@) is None,
        },
{
    serde_json::from_str::<serde_json::Value>(text).err().map(|e| e.to_string())
}

/// An error as herdr words it: `code: message`, with `error` for a missing
/// code and nothing for a missing message.
pub open spec fn error_text(code: Option<Seq<char>>, message: Option<Seq<char>>) -> Seq<char> {
    (match code {
        Some(c) => c,
        None => seq!['e', 'r', 'r', 'o', 'r'],
    }) + seq![':', ' '] + (match message {
        Some(m) => m,
        None => seq![],
    })
}

fn error_text_exec(code: &Option<String>, message: &Option<String>) -> (r: String)
    ensures
        r@ == error_text(opt_string_view(*code), opt_string_view(*message)),
{
    let mut out = match code {
        Some(c) => owned(c.as_str()),
        None => {
            proof {
                reveal_strlit("error");
            }
            owned("error")
        },
    };
    proof {
        reveal_strlit(": ");
    }
    out.append(": ");
    if let Some(m) = message {
        out.append(m.as_str());
    }
    out
}

/// What herdr's stderr comes to as a message: its `{"error": {"code",
/// "message"}}` worded as `code: message`, else the text trimmed.
pub open spec fn error_message_of(stderr: Seq<char>) -> Seq<char> {
    let t = crate::text::trim(stderr);
    match json_error_of(t) {
        Some((c, m)) => error_text(c, m),
        None => t,
    }
}

/// Herdr prints errors as `{"error": {"code", "message"}}` on stderr.
pub fn error_message(stderr: &str) -> (r: String)
    ensures
        r@ == error_message_of(stderr@),
{
    let t = crate::text::trimmed(stderr);
    match json_error(t.as_str()) {
        Some((c, m)) => error_text_exec(&c, &m),
        None => t,
    }
}

/// What a reply on herdr's socket comes to: the parse error after the
/// method's name when it is not JSON, the error it carries, or success.
pub open spec fn reply_check_of(method: Seq<char>, reply: Seq<char>) -> Result<(), Seq<char>> {
    match json_parse_error_of(reply) {
        Some(e) => Err(method + seq![':', ' '] + e),
        None => match json_error_of(reply) {
            Some((c, m)) => Err(error_text(c, m)),
            None => Ok(()),
        },
    }
}

/// Reads one reply on herdr's socket to `method`: an error when it is not
/// JSON or carries one, else success.
pub fn reply_check(method: &str, reply: &str) -> (r: Result<(), String>)
    ensures
        match r {
            Ok(()) => reply_check_of(method@, reply@) == Ok::<(), Seq<char>>(()),
            Err(e) => reply_check_of(method@, reply@) == Err::<(), Seq<char>>(e@),
        },
{
    if let Some(e) = json_parse_error(reply) {
        let mut out = owned(method);
        proof {
            reveal_strlit(": ");
        }
        out.append(": ");
        out.append(e.as_str());
        assert(out@ =~= method@ + seq![':', ' '] + e@);
        return Err(out);
    }
    match json_error(reply) {
        Some((c, m)) => Err(error_text_exec(&c, &m)),
        None => Ok(()),
    }
}

/// What serde_json reads of a reply to `pane.graphics.info`: the
/// `cell_width_px` and `cell_height_px` of its `result`, where they are
/// unsigned integers, and its `pane_visible`, where it is a boolean.
pub uninterp spec fn info_fields_of(reply: Seq<char>) -> (Option<u64>, Option<u64>, Option<bool>);

/// serde_json's `from_str` into a `Value`, then `pointer`, `as_u64` and
/// `as_bool` on the fields of its `result`. The contract names the result
/// and says no more of it.
#[verifier::external_body]
fn info_fields(reply: &str) -> (r: (Option<u64>, Option<u64>, Option<bool>))
    ensures
        r == info_fields_of(reply@),
{
    let v: Option<serde_json::Value> = serde_json::from_str(reply).ok();
    let f = |p: &str| v.as_ref().and_then(|v| v.pointer(p));
    (
        f("/result/cell_width_px").and_then(serde_json::Value::as_u64),
        f("/result/cell_height_px").and_then(serde_json::Value::as_u64),
        f("/result/pane_visible").and_then(serde_json::Value::as_bool),
    )
}

/// The cell size and visibility a reply to `pane.graphics.info` gives: a
/// missing number is 0 (a larger one keeps its low 32 bits), a missing
/// flag is false.
pub open spec fn graphics_info_of(fields: (Option<u64>, Option<u64>, Option<bool>)) -> GraphicsInfo {
    GraphicsInfo {
        cell_px: (
            (match fields.0 { Some(w) => w, None => 0u64 }) as u32,
            (match fields.1 { Some(h) => h, None => 0u64 }) as u32,
        ),
        visible: match fields.2 { Some(b) => b, None => false },
    }
}

/// The cell size and visibility that a reply to `pane.graphics.info`
/// reports.
pub fn graphics_info(reply: &str) -> (r: GraphicsInfo)
    ensures
        r == graphics_info_of(info_fields_of(reply@)),
{
    let (w, h, vis) = info_fields(reply);
    let w: u64 = match w { Some(w) => w, None => 0 };
    let h: u64 = match h { Some(h) => h, None => 0 };
    GraphicsInfo { cell_px: (#[verifier::truncate] (w as u32), #[verifier::truncate] (h as u32)), visible: match vis { Some(b) => b, None => false } }
}

#[derive(Debug, Clone, Copy, PartialEq, Eq)]
pub struct GraphicsInfo {
    pub cell_px: (u32, u32),
    pub visible: bool,
}

/// Where a layer goes, in cells relative to the pane. Rows and columns may
/// be negative; herdr clips.
#[derive(Debug, Clone, Copy, PartialEq, Eq, Hash)]
pub struct Placement {
    pub col: i32,
    pub row: i32,
    pub cols: u16,
    pub rows: u16,
}

/// A big-endian `u32` from four bytes.
pub open spec fn be32(a: u8, b: u8, c: u8, d: u8) -> u32 {
    (a as int * 16777216 + b as int * 65536 + c as int * 256 + d as int) as u32
}

/// The PNG signature, then an `IHDR` chunk: its width and height.
pub open spec fn png_size_of(b: Seq<u8>) -> Option<(u32, u32)> {
    if b.len() >= 24 && b.take(8) == seq![0x89u8, 0x50u8, 0x4eu8, 0x47u8, 0x0du8, 0x0au8, 0x1au8, 0x0au8]
        && b.subrange(12, 16) == seq![0x49u8, 0x48u8, 0x44u8, 0x52u8] {
        Some((be32(b[16], b[17], b[18], b[19]), be32(b[20], b[21], b[22], b[23])))
    } else {
        None
    }
}

fn be32_exec(a: u8, b: u8, c: u8, d: u8) -> (r: u32)
    ensures
        r == be32(a, b, c, d),
{
    (a as u32) * 16777216 + (b as u32) * 65536 + (c as u32) * 256 + (d as u32)
}

/// Width and height from a PNG's IHDR chunk.
pub fn png_size(bytes: &[u8]) -> (r: Option<(u32, u32)>)
    ensures
        r == png_size_of(bytes@),
{
    if bytes.len() < 24 {
        return None;
    }
    let sig = bytes[0] == 0x89 && bytes[1] == 0x50 && bytes[2] == 0x4e && bytes[3] == 0x47 && bytes[4] == 0x0d
        && bytes[5] == 0x0a && bytes[6] == 0x1a && bytes[7] == 0x0a;
    let ihdr = bytes[12] == 0x49 && bytes[13] == 0x48 && bytes[14] == 0x44 && bytes[15] == 0x52;
    proof {
        let s = seq![0x89u8, 0x50u8, 0x4eu8, 0x47u8, 0x0du8, 0x0au8, 0x1au8, 0x0au8];
        let h = seq![0x49u8, 0x48u8, 0x44u8, 0x52u8];
        if sig {
            assert(bytes@.take(8) =~= s);
        } else {
            assert(bytes@.take(8) != s) by {
                if bytes@.take(8) == s {
                    assert(bytes@.take(8)[0] == s[0] && bytes@.take(8)[1] == s[1] && bytes@.take(8)[2] == s[2]
                        && bytes@.take(8)[3] == s[3] && bytes@.take(8)[4] == s[4] && bytes@.take(8)[5] == s[5]
                        && bytes@.take(8)[6] == s[6] && bytes@.take(8)[7] == s[7]);
                }
            }
        }
        if ihdr {
            assert(bytes@.subrange(12, 16) =~= h);
        } else {
            assert(bytes@.subrange(12, 16) != h) by {
                if bytes@.subrange(12, 16) == h {
                    assert(bytes@.subrange(12, 16)[0] == h[0] && bytes@.subrange(12, 16)[1] == h[1]
                        && bytes@.subrange(12, 16)[2] == h[2] && bytes@.subrange(12, 16)[3] == h[3]);
                }
            }
        }
    }
    if !(sig && ihdr) {
        return None;
    }
    let w = be32_exec(bytes[16], bytes[17], bytes[18], bytes[19]);
    let h = be32_exec(bytes[20], bytes[21], bytes[22], bytes[23]);
    Some((w, h))
}

/// `herdr plugin pane open` arguments for one of knapp's panes: beside a
/// pane when given, then each `--env` pair.
pub open spec fn open_pane_args_of(
    plugin: Seq<char>,
    entrypoint: Seq<char>,
    beside: Option<Seq<char>>,
    env: Seq<(Seq<char>, Seq<char>)>,
) -> Seq<Seq<char>> {
    seq![
        seq!['p', 'l', 'u', 'g', 'i', 'n'],
        seq!['p', 'a', 'n', 'e'],
        seq!['o', 'p', 'e', 'n'],
        seq!['-', '-', 'p', 'l', 'u', 'g', 'i', 'n'],
        plugin,
        seq!['-', '-', 'e', 'n', 't', 'r', 'y', 'p', 'o', 'i', 'n', 't'],
        entrypoint,
    ] + beside_args(beside) + env_args(env)
}

/// `--target-pane p --direction right`, when beside a pane.
pub open spec fn beside_args(beside: Option<Seq<char>>) -> Seq<Seq<char>> {
    match beside {
        Some(p) => seq![
            seq!['-', '-', 't', 'a', 'r', 'g', 'e', 't', '-', 'p', 'a', 'n', 'e'],
            p,
            seq!['-', '-', 'd', 'i', 'r', 'e', 'c', 't', 'i', 'o', 'n'],
            seq!['r', 'i', 'g', 'h', 't'],
        ],
        None => seq![],
    }
}

/// `--env k=v` for each pair.
pub open spec fn env_args(env: Seq<(Seq<char>, Seq<char>)>) -> Seq<Seq<char>>
    decreases env.len(),
{
    if env.len() == 0 {
        seq![]
    } else {
        env_args(env.drop_last()) + seq![seq!['-', '-', 'e', 'n', 'v'], env.last().0 + seq!['='] + env.last().1]
    }
}

fn push_lit(v: &mut Vec<String>, s: &str)
    ensures
        views(final(v)@) == views(old(v)@).push(s@),
{
    let ghost before = views(v@);
    v.push(owned(s));
    assert(views(v@) =~= before.push(s@));
}

/// `herdr plugin pane open` arguments for one of knapp's panes.
pub fn open_pane_args(plugin: &str, entrypoint: &str, beside: Option<&str>, env: &[(&str, &str)]) -> (r: Vec<String>)
    ensures
        views(r@) == open_pane_args_of(plugin@, entrypoint@, opt_view(beside), env@.map_values(|e: (&str, &str)| (e.0@, e.1@))),
{
    let mut args: Vec<String> = Vec::new();
    push_lit(&mut args, "plugin");
    push_lit(&mut args, "pane");
    push_lit(&mut args, "open");
    push_lit(&mut args, "--plugin");
    push_lit(&mut args, plugin);
    push_lit(&mut args, "--entrypoint");
    push_lit(&mut args, entrypoint);
    proof {
        reveal_strlit("plugin");
        reveal_strlit("pane");
        reveal_strlit("open");
        reveal_strlit("--plugin");
        reveal_strlit("--entrypoint");
        assert("plugin"@ =~= seq!['p', 'l', 'u', 'g', 'i', 'n']);
        assert("pane"@ =~= seq!['p', 'a', 'n', 'e']);
        assert("open"@ =~= seq!['o', 'p', 'e', 'n']);
        assert("--plugin"@ =~= seq!['-', '-', 'p', 'l', 'u', 'g', 'i', 'n']);
        assert("--entrypoint"@ =~= seq!['-', '-', 'e', 'n', 't', 'r', 'y', 'p', 'o', 'i', 'n', 't']);
    }
    let ghost head = views(args@);
    assert(head =~= seq![
        seq!['p', 'l', 'u', 'g', 'i', 'n'],
        seq!['p', 'a', 'n', 'e'],
        seq!['o', 'p', 'e', 'n'],
        seq!['-', '-', 'p', 'l', 'u', 'g', 'i', 'n'],
        plugin@,
        seq!['-', '-', 'e', 'n', 't', 'r', 'y', 'p', 'o', 'i', 'n', 't'],
        entrypoint@,
    ]);
    if let Some(p) = beside {
        push_lit(&mut args, "--target-pane");
        push_lit(&mut args, p);
        push_lit(&mut args, "--direction");
        push_lit(&mut args, "right");
        proof {
            reveal_strlit("--target-pane");
            reveal_strlit("--direction");
            reveal_strlit("right");
            assert("--target-pane"@ =~= seq!['-', '-', 't', 'a', 'r', 'g', 'e', 't', '-', 'p', 'a', 'n', 'e']);
            assert("--direction"@ =~= seq!['-', '-', 'd', 'i', 'r', 'e', 'c', 't', 'i', 'o', 'n']);
            assert("right"@ =~= seq!['r', 'i', 'g', 'h', 't']);
        }
    }
    let ghost mid = views(args@);
    assert(mid =~= head + beside_args(opt_view(beside)));
    let ghost ev = env@.map_values(|e: (&str, &str)| (e.0@, e.1@));
    let mut k: usize = 0;
    while k < env.len()
        invariant
            k <= env@.len(),
            ev == env@.map_values(|e: (&str, &str)| (e.0@, e.1@)),
            views(args@) == mid + env_args(ev.take(k as int)),
        decreases env.len() - k,
    {
        assert(ev.take(k + 1).drop_last() =~= ev.take(k as int));
        assert(ev.take(k + 1).last() == (env@[k as int].0@, env@[k as int].1@));
        let ghost at_start = views(args@);
        push_lit(&mut args, "--env");
        proof {
            reveal_strlit("--env");
            assert("--env"@ =~= seq!['-', '-', 'e', 'n', 'v']);
        }
        let (name, value) = env[k];
        let mut pair = owned(name);
        push_char(&mut pair, '=');
        pair.append(value);
        let ghost before = views(args@);
        args.push(pair);
        assert(views(args@) =~= before.push(pair@));
        assert(pair@ =~= env@[k as int].0@ + seq!['='] + env@[k as int].1@);
        assert(views(args@) =~= at_start + seq![seq!['-', '-', 'e', 'n', 'v'], pair@]);
        assert(views(args@) =~= mid + env_args(ev.take(k + 1)));
        k = k + 1;
    }
    assert(ev.take(env@.len() as int) =~= ev);
    args
}

} // verus!
