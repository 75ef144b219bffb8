//! Configured roots and how a command picks one.

use vstd::prelude::*;

use crate::paths::{comps_start_with, comps_start_with_exec};
use crate::text::{chars_of, owned, starts_with, string_of, views};

verus! {

#[derive(Debug)]
pub struct Config {
    pub exclude: Vec<String>,
    pub graph_hops: u32,
    pub editor: String,
    pub send_max_bytes: usize,
    pub root: Vec<RootConfig>,
}

impl Default for Config {
    fn default() -> (r: Self)
        ensures
            r.exclude@.len() == 0,
            r.graph_hops == 2,
            r.editor@.len() == 0,
            r.send_max_bytes == 65536,
            r.root@.len() == 0,
    {
        Config { exclude: Vec::new(), graph_hops: 2, editor: String::new(), send_max_bytes: 65536, root: Vec::new() }
    }
}

#[derive(Debug, Clone)]
pub struct RootConfig {
    pub name: String,
    pub path: String,
    pub send_allow: Vec<String>,
}

#[derive(Debug, Clone)]
pub struct Root {
    pub name: Option<String>,
    pub path: String,
    pub send_allow: Vec<String>,
}

/// A root as plain values.
pub open spec fn root_view(r: Root) -> (Option<Seq<char>>, Seq<char>, Seq<Seq<char>>) {
    (crate::text::opt_string_view(r.name), r.path@, views(r.send_allow@))
}

/// `PathBuf::join` on `/`-separated paths: an absolute `b` replaces `a`;
/// else a separator goes between unless `a` is empty or ends with one.
pub open spec fn path_join(a: Seq<char>, b: Seq<char>) -> Seq<char> {
    if b.len() > 0 && b[0] == '/' {
        b
    } else if a.len() > 0 && a.last() != '/' {
        a + seq!['/'] + b
    } else {
        a + b
    }
}

pub fn path_join_exec(a: &str, b: &str) -> (r: String)
    ensures
        r@ == path_join(a@, b@),
{
    let ac = chars_of(a);
    let bc = chars_of(b);
    if bc.len() > 0 && bc[0] == '/' {
        return owned(b);
    }
    let mut out = owned(a);
    if ac.len() > 0 && ac[ac.len() - 1] != '/' {
        crate::text::push_char(&mut out, '/');
    }
    out.append(b);
    out
}

/// The base a setting's folder goes under: `xdg` when set, else
/// `<home>/<fallback>`.
pub open spec fn xdg_base(xdg: Option<Seq<char>>, home: Option<Seq<char>>, fallback: Seq<char>) -> Option<Seq<char>> {
    match xdg {
        Some(x) => Some(x),
        None => match home {
            Some(h) => Some(path_join(h, fallback)),
            None => None,
        },
    }
}

/// The config file: `config.toml` in `HERDR_PLUGIN_CONFIG_DIR` when set,
/// else `knapp/config.toml` under `XDG_CONFIG_HOME`, else under
/// `~/.config`. Each variable is given when set and not empty.
pub open spec fn config_path_of(plugin_dir: Option<Seq<char>>, xdg: Option<Seq<char>>, home: Option<Seq<char>>) -> Option<
    Seq<char>,
> {
    match plugin_dir {
        Some(d) => Some(path_join(d, "config.toml"@)),
        None => match xdg_base(xdg, home, ".config"@) {
            Some(base) => Some(path_join(path_join(base, "knapp"@), "config.toml"@)),
            None => None,
        },
    }
}

pub fn config_path(plugin_dir: Option<&str>, xdg: Option<&str>, home: Option<&str>) -> (r: Option<String>)
    ensures
        crate::text::opt_string_view(r) == config_path_of(
            crate::text::opt_view(plugin_dir),
            crate::text::opt_view(xdg),
            crate::text::opt_view(home),
        ),
{
    proof {
        reveal_strlit("config.toml");
        reveal_strlit("knapp");
        reveal_strlit(".config");
    }
    match plugin_dir {
        Some(d) => Some(path_join_exec(d, "config.toml")),
        None => {
            let base = match (xdg, home) {
                (Some(x), _) => owned(x),
                (None, Some(h)) => path_join_exec(h, ".config"),
                (None, None) => return None,
            };
            let k = path_join_exec(base.as_str(), "knapp");
            Some(path_join_exec(k.as_str(), "config.toml"))
        },
    }
}

/// The cache directory: `HERDR_PLUGIN_STATE_DIR` when set, else
/// `knapp` under `XDG_CACHE_HOME`, else under `~/.cache`. Each variable
/// is given when set and not empty.
pub open spec fn cache_dir_of(state_dir: Option<Seq<char>>, xdg: Option<Seq<char>>, home: Option<Seq<char>>) -> Option<
    Seq<char>,
> {
    match state_dir {
        Some(d) => Some(d),
        None => match xdg_base(xdg, home, ".cache"@) {
            Some(base) => Some(path_join(base, "knapp"@)),
            None => None,
        },
    }
}

pub fn cache_dir(state_dir: Option<&str>, xdg: Option<&str>, home: Option<&str>) -> (r: Option<String>)
    ensures
        crate::text::opt_string_view(r) == cache_dir_of(
            crate::text::opt_view(state_dir),
            crate::text::opt_view(xdg),
            crate::text::opt_view(home),
        ),
{
    proof {
        reveal_strlit("knapp");
        reveal_strlit(".cache");
    }
    match state_dir {
        Some(d) => Some(owned(d)),
        None => {
            let base = match (xdg, home) {
                (Some(x), _) => owned(x),
                (None, Some(h)) => path_join_exec(h, ".cache"),
                (None, None) => return None,
            };
            Some(path_join_exec(base.as_str(), "knapp"))
        },
    }
}

/// `~` and `~/...` from `home`, then relative paths joined to `base`.
pub open spec fn expand_of(path: Seq<char>, base: Seq<char>, home: Option<Seq<char>>) -> Seq<char> {
    let p = if starts_with(path, seq!['~', '/']) && home is Some {
        path_join(home->0, path.skip(2))
    } else if path == seq!['~'] {
        match home {
            Some(h) => h,
            None => seq![],
        }
    } else {
        path
    };
    if p.len() > 0 && p[0] == '/' {
        p
    } else {
        path_join(base, p)
    }
}

/// A root's path with `~` expanded (from `home`, the `HOME` variable when
/// set and not empty) and relative paths joined to `base`.
pub fn expand(path: &str, base: &str, home: Option<&str>) -> (r: String)
    ensures
        r@ == expand_of(path@, base@, crate::text::opt_view(home)),
{
    let pc = chars_of(path);
    let tilde_slash = pc.len() >= 2 && pc[0] == '~' && pc[1] == '/';
    proof {
        if pc@.len() >= 2 {
            assert(pc@.take(2) =~= seq![pc@[0], pc@[1]]);
            if !(pc@[0] == '~' && pc@[1] == '/') {
                assert(pc@.take(2) != seq!['~', '/']) by {
                    if pc@.take(2) == seq!['~', '/'] {
                        assert(pc@.take(2)[0] == '~' && pc@.take(2)[1] == '/');
                    }
                }
            }
        }
    }
    let tilde = pc.len() == 1 && pc[0] == '~';
    assert(tilde == (pc@ == seq!['~'])) by {
        if pc@ == seq!['~'] {
            assert(pc@.len() == 1 && pc@[0] == '~');
        }
        if tilde {
            assert(pc@ =~= seq!['~']);
        }
    }
    let p: String = if tilde_slash && home.is_some() {
        let rest = string_of(crate::text::slice_range(pc.as_slice(), 2, pc.len()));
        assert(rest@ =~= pc@.skip(2));
        path_join_exec(home.unwrap(), rest.as_str())
    } else if tilde {
        match home {
            Some(h) => owned(h),
            None => String::new(),
        }
    } else {
        owned(path)
    };
    let p2 = chars_of(p.as_str());
    if p2.len() > 0 && p2[0] == '/' {
        p
    } else {
        path_join_exec(base, p.as_str())
    }
}

/// A root for a path no configured root names: it cannot send.
pub fn unconfigured(path: String) -> (r: Root)
    ensures
        root_view(r) == (None::<Seq<char>>, path@, Seq::<Seq<char>>::empty()),
{
    let r = Root { name: None, path, send_allow: Vec::new() };
    assert(views(r.send_allow@) =~= Seq::<Seq<char>>::empty());
    r
}

/// The configured roots, expanded.
pub open spec fn roots_of(cfg: Seq<RootConfig>, base: Seq<char>, home: Option<Seq<char>>) -> Seq<(Option<Seq<char>>, Seq<char>, Seq<Seq<char>>)> {
    cfg.map_values(
        |r: RootConfig| (Some(r.name@), expand_of(r.path@, base, home), views(r.send_allow@)),
    )
}

/// The first configured root named `arg`.
pub open spec fn named_root(roots: Seq<(Option<Seq<char>>, Seq<char>, Seq<Seq<char>>)>, arg: Seq<char>, i: int) -> Option<int>
    decreases roots.len() - i,
{
    if i < 0 || i >= roots.len() {
        None
    } else if roots[i].0 == Some(arg) {
        Some(i)
    } else {
        named_root(roots, arg, i + 1)
    }
}

/// The first configured root whose canonical path holds `inside`.
pub open spec fn holding_root(canons: Seq<Seq<char>>, inside: Seq<char>, i: int) -> Option<int>
    decreases canons.len() - i,
{
    if i < 0 || i >= canons.len() {
        None
    } else if comps_start_with(inside, canons[i]) {
        Some(i)
    } else {
        holding_root(canons, inside, i + 1)
    }
}

/// The root for a command: the root named `arg`, else `arg` as a path;
/// without `arg`, the first root holding `inside`, else `base`.
pub open spec fn pick_root_of(
    roots: Seq<(Option<Seq<char>>, Seq<char>, Seq<Seq<char>>)>,
    canons: Seq<Seq<char>>,
    arg: Option<Seq<char>>,
    inside: Seq<char>,
    base: Seq<char>,
    home: Option<Seq<char>>,
) -> (Option<Seq<char>>, Seq<char>, Seq<Seq<char>>) {
    match arg {
        Some(a) => match named_root(roots, a, 0) {
            Some(i) => roots[i],
            None => (None, expand_of(a, base, home), seq![]),
        },
        None => match holding_root(canons, inside, 0) {
            Some(i) => roots[i],
            None => (None, base, seq![]),
        },
    }
}

impl Config {
    /// Configured roots with `~` expanded and relative paths joined to `base`
    /// (the workspace directory, or the current directory outside herdr).
    pub fn roots(&self, base: &str, home: Option<&str>) -> (r: Vec<Root>)
        ensures
            r@.map_values(|x: Root| root_view(x)) == roots_of(self.root@, base@, crate::text::opt_view(home)),
    {
        let mut out: Vec<Root> = Vec::new();
        let mut i: usize = 0;
        while i < self.root.len()
            invariant
                i <= self.root@.len(),
                out@.map_values(|x: Root| root_view(x)) == roots_of(self.root@, base@, crate::text::opt_view(home)).take(i as int),
            decreases self.root.len() - i,
        {
            let rc = &self.root[i];
            let allow = copy_strings(rc.send_allow.as_slice());
            let root = Root { name: Some(owned(rc.name.as_str())), path: expand(rc.path.as_str(), base, home), send_allow: allow };
            let ghost before = out@.map_values(|x: Root| root_view(x));
            let ghost rvw = root_view(root);
            out.push(root);
            assert(out@.map_values(|x: Root| root_view(x)) =~= before.push(rvw));
            assert(out@.map_values(|x: Root| root_view(x)) =~= roots_of(self.root@, base@, crate::text::opt_view(home)).take(i + 1));
            i = i + 1;
        }
        assert(roots_of(self.root@, base@, crate::text::opt_view(home)).take(self.root@.len() as int) =~= roots_of(
            self.root@,
            base@,
            crate::text::opt_view(home),
        ));
        out
    }

    /// The root for a CLI command: `--root NAME|PATH` when given, else the
    /// configured root containing `inside`, else `base` as an unconfigured
    /// root that cannot send. `inside` and `canons` (each configured root's
    /// path, in order, canonical) come from the filesystem.
    pub fn pick_root(&self, arg: Option<&str>, inside: &str, base: &str, home: Option<&str>, canons: &[String]) -> (r: Result<Root, String>)
        requires
            canons@.len() == self.root@.len(),
        ensures
            r matches Ok(root) && root_view(root) == pick_root_of(
                roots_of(self.root@, base@, crate::text::opt_view(home)),
                views(canons@),
                crate::text::opt_view(arg),
                inside@,
                base@,
                crate::text::opt_view(home),
            ),
    {
        let roots = self.roots(base, home);
        let ghost rv = roots@.map_values(|x: Root| root_view(x));
        match arg {
            Some(a) => {
                let mut i: usize = 0;
                while i < roots.len()
                    invariant
                        i <= roots@.len(),
                        rv == roots@.map_values(|x: Root| root_view(x)),
                        rv == roots_of(self.root@, base@, crate::text::opt_view(home)),
                        crate::text::opt_view(arg) == Some(a@),
                        named_root(rv, a@, 0) == named_root(rv, a@, i as int),
                    decreases roots.len() - i,
                {
                    let hit = match &roots[i].name {
                        Some(n) => crate::text::strs_eq(n.as_str(), a),
                        None => false,
                    };
                    assert(hit == (rv[i as int].0 == Some(a@)));
                    if hit {
                        assert(rv[i as int] == root_view(roots@[i as int]));
                        return Ok(roots[i].clone_root());
                    }
                    i = i + 1;
                }
                Ok(unconfigured(expand(a, base, home)))
            },
            None => {
                let ic = chars_of(inside);
                let mut i: usize = 0;
                while i < roots.len()
                    invariant
                        i <= roots@.len(),
                        roots@.len() == canons@.len(),
                        rv == roots@.map_values(|x: Root| root_view(x)),
                        rv == roots_of(self.root@, base@, crate::text::opt_view(home)),
                        arg is None,
                        ic@ == inside@,
                        holding_root(views(canons@), inside@, 0) == holding_root(views(canons@), inside@, i as int),
                    decreases roots.len() - i,
                {
                    let cc = chars_of(canons[i].as_str());
                    assert(views(canons@)[i as int] == cc@);
                    if comps_start_with_exec(ic.as_slice(), cc.as_slice()) {
                        assert(rv[i as int] == root_view(roots@[i as int]));
                        return Ok(roots[i].clone_root());
                    }
                    i = i + 1;
                }
                Ok(unconfigured(owned(base)))
            },
        }
    }
}

impl Root {
    /// A copy with equal fields.
    pub fn clone_root(&self) -> (r: Root)
        ensures
            root_view(r) == root_view(*self),
    {
        let allow = copy_strings(self.send_allow.as_slice());
        Root {
            name: match &self.name {
                Some(n) => Some(owned(n.as_str())),
                None => None,
            },
            path: owned(self.path.as_str()),
            send_allow: allow,
        }
    }
}

/// Owned copies of some strings.
pub fn copy_strings(v: &[String]) -> (r: Vec<String>)
    ensures
        views(r@) == views(v@),
{
    let mut out: Vec<String> = Vec::new();
    let mut k: usize = 0;
    while k < v.len()
        invariant
            k <= v@.len(),
            views(out@) == views(v@).take(k as int),
        decreases v.len() - k,
    {
        let s = owned(v[k].as_str());
        let ghost before = views(out@);
        out.push(s);
        assert(views(out@) =~= before.push(s@));
        assert(views(v@).take(k + 1) =~= views(v@).take(k as int).push(v@[k as int]@));
        k = k + 1;
    }
    assert(views(v@).take(v@.len() as int) =~= views(v@));
    out
}

} // verus!
