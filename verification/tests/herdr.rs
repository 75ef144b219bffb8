use knapp::herdr::{
    error_message, graphics_info, open_pane_args, pick_agent, png_size, reply_check, workspace_dir, Agent, Context, GraphicsInfo,
};

fn agent(pane: &str, ws: &str, focused: bool) -> Agent {
    Agent {
        pane_id: pane.into(),
        workspace_id: ws.into(),
        focused,
        cwd: Some("/a".into()),
        agent: Some("codewriter".into()),
        agent_status: Some("idle".into()),
    }
}

fn list() -> Vec<Agent> {
    vec![agent("w2:p1", "w2", true), agent("w1:p1", "w1", false), agent("w1:p4", "w1", true), agent("w1:p5", "w1", false)]
}

#[test]
fn picks_the_focused_pane_then_the_focused_agent() {
    let list = list();
    assert_eq!(pick_agent(&list, "w1", Some("w1:p1")).unwrap().pane_id, "w1:p1");
    assert_eq!(pick_agent(&list, "w1", Some("w1:p9")).unwrap().pane_id, "w1:p4");
    assert!(pick_agent(&list, "w9", None).is_none());
}

#[test]
fn without_a_focused_agent_the_first_in_the_workspace() {
    let list = vec![agent("w1:p7", "w1", false), agent("w1:p8", "w1", false)];
    assert_eq!(pick_agent(&list, "w1", None).unwrap().pane_id, "w1:p7");
}

#[test]
fn png_size_reads_ihdr() {
    let mut png = b"\x89PNG\r\n\x1a\n\0\0\0\rIHDR".to_vec();
    png.extend_from_slice(&[0, 0, 0, 2, 0, 0, 0, 2, 8, 6, 0, 0, 0]);
    assert_eq!(png_size(&png), Some((2, 2)));
    let mut wide = png.clone();
    wide[16..24].copy_from_slice(&[0, 0, 1, 64, 0, 0, 0, 192]);
    assert_eq!(png_size(&wide), Some((320, 192)));
    assert_eq!(png_size(b"not a png at all, no"), None);
    assert_eq!(png_size(&png[..23]), None);
}

#[test]
fn pane_open_arguments() {
    assert_eq!(
        open_pane_args("shindakun.knapp", "notes", Some("w1:p1"), &[("KNAPP_CWD", "/w")]),
        [
            "plugin",
            "pane",
            "open",
            "--plugin",
            "shindakun.knapp",
            "--entrypoint",
            "notes",
            "--target-pane",
            "w1:p1",
            "--direction",
            "right",
            "--env",
            "KNAPP_CWD=/w"
        ]
    );
    assert_eq!(open_pane_args("p", "peek", None, &[]), ["plugin", "pane", "open", "--plugin", "p", "--entrypoint", "peek"]);
}

#[test]
fn the_workspace_dir_prefers_the_agent_and_skips_plugin_checkouts() {
    let mut a = agent("w1:p4", "w1", true);
    a.cwd = Some("/work/notes".into());
    let agents = vec![a];
    let ctx = Context {
        workspace_id: Some("w1".into()),
        workspace_cwd: Some("/work/other".into()),
        focused_pane_id: Some("w1:p4".into()),
        selected_text: None,
        clicked_url: None,
    };
    let dirs = vec!["/work/notes".to_string(), "/work/other".to_string()];
    let config = Some("/h/.config/herdr/plugins/config/shindakun.knapp");
    assert_eq!(workspace_dir(&ctx, &agents, config, &dirs).as_deref(), Some("/work/notes"));
    let only_other = vec!["/work/other".to_string()];
    assert_eq!(workspace_dir(&ctx, &agents, config, &only_other).as_deref(), Some("/work/other"));
    assert_eq!(workspace_dir(&ctx, &agents, config, &[]), None);
    let mut inside = ctx.clone();
    inside.workspace_id = None;
    inside.workspace_cwd = Some("/h/.config/herdr/plugins/other.plugin".into());
    let plugin_dirs = vec!["/h/.config/herdr/plugins/other.plugin".to_string()];
    assert_eq!(workspace_dir(&inside, &agents, config, &plugin_dirs), None);
    assert_eq!(workspace_dir(&inside, &agents, None, &plugin_dirs).as_deref(), Some("/h/.config/herdr/plugins/other.plugin"));
}

#[test]
fn herdr_errors_are_worded_code_colon_message() {
    assert_eq!(error_message("  {\"error\":{\"code\":\"not_found\",\"message\":\"no pane\"}}\n"), "not_found: no pane");
    assert_eq!(error_message("{\"error\":{\"message\":\"bad\"}}"), "error: bad");
    assert_eq!(error_message("{\"error\":{\"code\":7}}"), "error: ");
    assert_eq!(error_message("  plain failure \n"), "plain failure");
    assert_eq!(error_message("{\"ok\":true}"), "{\"ok\":true}");
}

#[test]
fn socket_replies_give_their_error_or_success() {
    assert_eq!(
        reply_check("pane.graphics.info", r#"{"id":"knapp","error":{"code":"feature_disabled","message":"graphics are off"}}"#),
        Err("feature_disabled: graphics are off".to_string())
    );
    assert_eq!(reply_check("pane.graphics.set", r#"{"id":"knapp","result":{}}"#), Ok(()));
    let e = reply_check("pane.graphics.clear", "").unwrap_err();
    assert!(e.starts_with("pane.graphics.clear: "), "{e}");
    assert!(e.len() > "pane.graphics.clear: ".len());
}

#[test]
fn graphics_info_reads_the_result() {
    let r = r#"{"id":"knapp","result":{"type":"pane_graphics_info","cell_width_px":8,"cell_height_px":16,"pane_visible":true}}"#;
    assert_eq!(graphics_info(r), GraphicsInfo { cell_px: (8, 16), visible: true });
    assert_eq!(graphics_info(r#"{"result":{"cell_width_px":4294967304}}"#), GraphicsInfo { cell_px: (8, 0), visible: false });
    assert_eq!(graphics_info("{}"), GraphicsInfo { cell_px: (0, 0), visible: false });
}
