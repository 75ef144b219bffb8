use knapp::config::{cache_dir, config_path, expand, Config, RootConfig};

fn config(roots: &[(&str, &str)]) -> Config {
    let mut c = Config::default();
    for (name, path) in roots {
        c.root.push(RootConfig { name: name.to_string(), path: path.to_string(), send_allow: vec!["docs/".into()] });
    }
    c
}

#[test]
fn defaults_and_fields() {
    let mut c = config(&[("docs", "docs")]);
    c.exclude.push("node_modules/".into());
    assert_eq!(c.exclude, ["node_modules/"]);
    assert_eq!(c.graph_hops, 2);
    assert_eq!(c.send_max_bytes, 65536);
    let roots = c.roots("/work", None);
    assert_eq!(roots[0].path, "/work/docs");
    assert_eq!(roots[0].name.as_deref(), Some("docs"));
    assert_eq!(roots[0].send_allow, ["docs/"]);
}

#[test]
fn pick_root_by_name_containment_and_fallback() {
    let repo = "/repo";
    let c = config(&[("basic", "/repo/fixtures/vault-basic")]);
    let canons = vec!["/repo/fixtures/vault-basic".to_string()];
    let by_name = c.pick_root(Some("basic"), repo, repo, None, &canons).expect("pick");
    assert_eq!(by_name.name.as_deref(), Some("basic"));

    let contained = c.pick_root(None, "/repo/fixtures/vault-basic/dir", repo, None, &canons).expect("pick");
    assert_eq!(contained.name.as_deref(), Some("basic"));

    let fallback = c.pick_root(None, "/repo/docs", repo, None, &canons).expect("pick");
    assert_eq!(fallback.name, None);
    assert_eq!(fallback.path, repo);
    assert!(fallback.send_allow.is_empty());

    let by_path = c.pick_root(Some("fixtures/vault-broken"), repo, repo, None, &canons).expect("pick");
    assert_eq!(by_path.path, "/repo/fixtures/vault-broken");
}

#[test]
fn tildes_expand_from_home() {
    assert_eq!(expand("~/notes", "/base", Some("/home/u")), "/home/u/notes");
    assert_eq!(expand("~", "/base", Some("/home/u")), "/home/u");
    assert_eq!(expand("rel", "/base", Some("/home/u")), "/base/rel");
    assert_eq!(expand("/abs", "/base", None), "/abs");
    assert_eq!(expand("~/x", "/base", None), "/base/~/x");
}

#[test]
fn config_and_cache_places_follow_herdr_then_xdg_then_home() {
    assert_eq!(config_path(Some("/p/cfg"), Some("/x"), Some("/h")).as_deref(), Some("/p/cfg/config.toml"));
    assert_eq!(config_path(None, Some("/x"), Some("/h")).as_deref(), Some("/x/knapp/config.toml"));
    assert_eq!(config_path(None, None, Some("/h")).as_deref(), Some("/h/.config/knapp/config.toml"));
    assert_eq!(config_path(None, None, None), None);
    assert_eq!(cache_dir(Some("/state"), Some("/x"), Some("/h")).as_deref(), Some("/state"));
    assert_eq!(cache_dir(None, Some("/x/"), Some("/h")).as_deref(), Some("/x/knapp"));
    assert_eq!(cache_dir(None, None, Some("/h")).as_deref(), Some("/h/.cache/knapp"));
    assert_eq!(cache_dir(None, None, None), None);
}
