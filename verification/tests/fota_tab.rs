use telemetry_client::fota::config::FotaConfig;
use telemetry_client::fota::delivery::Progress;
use telemetry_client::fota::fields::{parse_node, parse_node_spec, parse_version};
use telemetry_client::fota::image::{is_manifest, is_raw_image, project_name, Manifest};
use telemetry_client::fota::names::board_name;
use telemetry_client::fota::protocol::{Heartbeat, NackCode};
use telemetry_client::fota::shared::{Command, Event};
use telemetry_client::fota::tab::{app_text, node_status_line, version_text, FotaTab, LOG_MAX};
use telemetry_client::fota::worker::{
    job_done, job_started, link_label, needs_reopen, not_connected, to_event, Worker,
};

#[test]
fn node_lists_take_ids_and_ranges() {
    assert_eq!(parse_node_spec("0").unwrap(), vec![0]);
    assert_eq!(parse_node_spec("0,3,5").unwrap(), vec![0, 3, 5]);
    assert_eq!(parse_node_spec(" 5 , 0-3, 5,, 8 ").unwrap(), vec![0, 1, 2, 3, 5, 8]);
    assert!(parse_node_spec("").unwrap().is_empty());
    assert_eq!(parse_node_spec("0-63").unwrap().len(), 64);
    assert_eq!(parse_node_spec("+7").unwrap(), vec![7]);
}

#[test]
fn node_lists_tell_what_is_wrong() {
    assert_eq!(parse_node_spec("7-2").unwrap_err(), "range '7-2' is backwards");
    assert_eq!(parse_node_spec("1, x ,64").unwrap_err(), "bad node 'x'");
    assert_eq!(parse_node_spec("64").unwrap_err(), "node 64 out of range 0..=63");
    assert_eq!(parse_node("70000").unwrap_err(), "bad node '70000'");
    assert_eq!(parse_node_spec("1-2-3").unwrap_err(), "bad node '2-3'");
}

#[test]
fn versions_default_the_minor_number() {
    assert_eq!(parse_version("1.2").unwrap(), (1, 2));
    assert_eq!(parse_version(" 3 ").unwrap(), (3, 0));
    assert_eq!(parse_version("x.1").unwrap_err(), "bad version major in 'x.1'");
    assert_eq!(parse_version("1.256").unwrap_err(), "bad version minor in '1.256'");
    assert_eq!(parse_version("1.2.3").unwrap_err(), "bad version minor in '1.2.3'");
}

#[test]
fn form_writes_the_configuration() {
    let mut tab = FotaTab::new("  ");
    assert_eq!(tab.serial_port, "COM9");
    let cfg = tab.parse_config().unwrap();
    assert_eq!(
        (cfg.serial_baud, cfg.ack_timeout_ms, cfg.discovery_window_ms, cfg.retries),
        (230_400, 1000, 3000, 5)
    );
    tab.serial_port = " /dev/ttyUSB0 ".into();
    tab.retries = " 2 ".into();
    let cfg = tab.parse_config().unwrap();
    assert_eq!((cfg.serial_port.as_str(), cfg.retries), ("/dev/ttyUSB0", 2));
    tab.serial_baud = "fast".into();
    assert_eq!(tab.parse_config().unwrap_err(), "bad baud 'fast'");
    tab.retries = "-1".into();
    assert_eq!(tab.parse_config().unwrap_err(), "bad retries '-1'");
    tab.response_ms = "".into();
    assert_eq!(tab.parse_config().unwrap_err(), "bad response window ''");
    tab.timeout_ms = "1s".into();
    assert_eq!(tab.parse_config().unwrap_err(), "bad timeout '1s'");
}

#[test]
fn events_drive_the_tab() {
    let mut tab = FotaTab::new("COM3");
    tab.handle(Event::JobStarted("flash".into()));
    assert!(tab.busy);
    tab.handle(Event::Stage("writing".into()));
    assert_eq!(tab.stage, "writing");
    tab.handle(Event::Chunk { done: 1, total: 3, bytes: 2048 });
    assert_eq!(tab.progress, Some((1, 3)));
    tab.handle(Event::NodeAck { node: 4 });
    assert_eq!(tab.node_status[&4], "ok");
    tab.handle(Event::NodeNack { node: 4, code: "Crc".into(), transient: false });
    tab.handle(Event::NodeNack { node: 5, code: "Sequence".into(), transient: true });
    tab.handle(Event::Retry { attempt: 1, of: 5, pending: vec![4, 5] });
    tab.handle(Event::JobFailed("no".into()));
    assert!(!tab.busy);
    assert_eq!((tab.status.as_str(), tab.stage.as_str()), ("failed: no", ""));
    tab.handle(Event::JobDone("yes".into()));
    tab.handle(Event::Status("listening".into()));
    assert_eq!(tab.status, "listening");
    let log: Vec<&str> = tab.log.iter().map(|s| s.as_str()).collect();
    assert_eq!(
        log,
        vec![
            "> flash",
            "writing",
            "chunk 1/3 (2048 B) acked",
            "node 4 NACK Crc",
            "node 5 NACK Sequence (retrying)",
            "retry 1/5, pending [4, 5]",
            "[fail] no",
            "[ok] yes",
            "listening",
        ]
    );
    tab.shutdown();
    assert_eq!(tab.status, "disconnected");
}

#[test]
fn log_keeps_its_newest_lines() {
    let mut tab = FotaTab::new("");
    for i in 0..LOG_MAX + 3 {
        tab.push_log(i.to_string());
    }
    assert_eq!(tab.log.len(), LOG_MAX);
    assert_eq!(tab.log[0], "3");
    assert_eq!(tab.log[LOG_MAX - 1], (LOG_MAX + 2).to_string());
}

#[test]
fn flash_button_places_an_order() {
    let mut tab = FotaTab::new("COM3");
    assert!(tab.start_flash().is_none());
    tab.image_path = " fw.bin ".into();
    tab.node_spec = "1-2".into();
    assert!(!tab.can_flash());
    assert!(tab.connect().is_some());
    assert!(tab.connected() && tab.can_flash());
    tab.progress = Some((1, 2));
    tab.node_status.insert(3, "ok".into());
    let order = tab.start_flash().unwrap();
    match order.command {
        Command::Flash { image, nodes, version, jump_after, .. } => {
            assert_eq!((image.as_str(), nodes), ("fw.bin", vec![1, 2]));
            assert_eq!((version, jump_after), ((0, 0), true));
        }
        other => panic!("{other:?}"),
    }
    assert!(tab.progress.is_none() && tab.node_status.is_empty());
    tab.version = "a".into();
    assert!(tab.start_flash().is_none());
    assert_eq!(tab.log.back().unwrap(), "config error: bad version major in 'a'");
    tab.version = "1".into();
    tab.timeout_ms = "x".into();
    assert!(tab.start_flash().is_none());
    assert_eq!(tab.status, "config error: bad timeout 'x'");
}

#[test]
fn recovery_buttons_place_orders() {
    let mut tab = FotaTab::new("COM3");
    assert!(tab.enter_selected().is_none());
    assert!(tab.jump_selected().is_none());
    assert_eq!(tab.log[1], "no nodes selected for jump to app");
    assert!(matches!(tab.enter_all().unwrap().command, Command::Enter { mask: 0 }));
    tab.node_spec = "0, 40".into();
    assert!(matches!(tab.enter_selected().unwrap().command, Command::Enter { mask: 1 }));
    assert_eq!(
        tab.log.back().unwrap(),
        "enter mask is 32-bit; nodes >=32 ignored, use the (all) button"
    );
    tab.select_all();
    assert_eq!(tab.selected_nodes().len(), 64);
    assert!(matches!(
        tab.jump_selected().unwrap().command,
        Command::Jump { nodes } if nodes.len() == 64
    ));
    tab.node_spec = "?".into();
    assert!(tab.selected_nodes().is_empty());
}

#[test]
fn manifest_fills_what_it_knows() {
    let mut tab = FotaTab::new("");
    assert!(tab.manifest_source().is_none());
    tab.set_image("a.bin".into(), " a.json ".into());
    assert_eq!(tab.manifest_source().unwrap(), "a.json");
    tab.apply_manifest("a.json", None);
    assert_eq!(tab.log[0], "no usable manifest at a.json");
    tab.git = "old".into();
    let m = Manifest { project: "p".into(), version: "2.1".into(), ..Manifest::default() };
    tab.apply_manifest("a.json", Some(m));
    assert_eq!((tab.project.as_str(), tab.version.as_str(), tab.git.as_str()), ("p", "2.1", "old"));
    assert_eq!(tab.log[1], "loaded manifest: project=p board= ver=2.1 git=");
}

#[test]
fn tab_is_drawn_at_the_pace_it_needs() {
    let mut tab = FotaTab::new("");
    assert_eq!(tab.repaint_after(), None);
    tab.connected = true;
    assert_eq!(tab.repaint_after(), Some(500));
    tab.file_hovering = true;
    assert_eq!(tab.repaint_after(), Some(120));
}

#[test]
fn apply_and_disconnect_tell_the_log() {
    let mut tab = FotaTab::new("");
    assert!(tab.apply_config().is_some());
    tab.retries = "no".into();
    assert!(tab.apply_config().is_none());
    assert!(tab.connect().is_none());
    tab.disconnect();
    let log: Vec<&str> = tab.log.iter().map(|s| s.as_str()).collect();
    assert_eq!(
        log,
        vec![
            "config applied",
            "config error: bad retries 'no'",
            "config error: bad retries 'no'",
            "FOTA link stopped",
        ]
    );
}

#[test]
fn link_reopens_for_another_port_or_rate_only() {
    let cfg = FotaConfig::default();
    assert!(needs_reopen(&None, &cfg));
    let open = Some(cfg.clone());
    assert!(!needs_reopen(&open, &cfg));
    let mut slow = cfg.clone();
    slow.ack_timeout_ms = 9;
    slow.retries = 0;
    assert!(!needs_reopen(&open, &slow));
    let mut other = cfg.clone();
    other.serial_baud = 9600;
    assert!(needs_reopen(&open, &other));
    assert_eq!(link_label(&other), "COM9 @ 9600");
}

#[test]
fn silent_nodes_age_out() {
    let cfg = FotaConfig::default();
    let mut worker = Worker::new();
    assert!(worker.must_open(&cfg));
    let events = worker.opened(&cfg);
    assert!(matches!(&events[0], Event::BootList(l) if l.is_empty()));
    assert!(matches!(&events[1], Event::Status(s) if s == "listening on COM9 @ 230400"));
    assert!(!worker.must_open(&cfg));
    let hb = Heartbeat::parse(&[3, 1, 2, 0, 1, 0, 0, 0]).unwrap();
    let list = |e: Event| match e {
        Event::BootList(l) => l,
        other => panic!("{other:?}"),
    };
    let l = list(worker.heard(vec![(5, hb), (1, hb), (5, hb)], &cfg, 1000));
    let ids: Vec<u16> = l.iter().map(|n| n.node).collect();
    assert_eq!(ids, vec![1, 5]);
    assert_eq!((l[0].board.as_str(), l[0].mode.as_str()), ("front_controller", "app"));
    assert_eq!((app_text(&l[0]), version_text(&l[0])), ("256 B".into(), "1.2".into()));
    let l = list(worker.heard(vec![(1, hb)], &cfg, 4000));
    assert_eq!(l.len(), 2);
    let l = list(worker.heard(vec![], &cfg, 4001));
    assert_eq!(l.len(), 1);
    assert_eq!((l[0].node, l[0].last_seen), (1, 4000));
    let lost = worker.link_lost("gone");
    assert!(matches!(lost, Event::Status(s) if s == "link read error: gone"));
    assert!(worker.must_open(&cfg));
    let failed = worker.open_failed(&cfg, "busy");
    assert!(matches!(failed, Event::Status(s) if s == "cannot open COM9 @ 230400: busy"));
}

#[test]
fn jobs_tell_their_beginning_and_end() {
    let text = |e: Option<Event>| match e {
        Some(Event::JobStarted(s)) | Some(Event::JobDone(s)) => s,
        other => panic!("{other:?}"),
    };
    let flash = Command::Flash {
        image: "a.bin".into(),
        nodes: vec![0, 3],
        project: "".into(),
        version: (0, 0),
        git: "".into(),
        jump_after: false,
    };
    assert_eq!(text(job_started(&flash)), "flash a.bin to nodes [0, 3]");
    assert_eq!(text(job_done(&flash)), "flash complete on nodes [0, 3]");
    let jump = Command::Jump { nodes: vec![] };
    assert_eq!(text(job_started(&jump)), "jump to app: nodes []");
    assert_eq!(text(job_done(&jump)), "jump to app requested for nodes []");
    let enter = Command::Enter { mask: 0x2A };
    assert_eq!(text(job_started(&enter)), "jump to bootloader: mask 0x0000002A");
    assert_eq!(text(job_done(&Command::Enter { mask: 0 })), "jump to bootloader: all nodes");
    assert!(job_started(&Command::Stop).is_none());
    let e = not_connected(&FotaConfig::default());
    assert!(matches!(e, Event::JobFailed(s) if s == "not connected to COM9 @ 230400"));
}

#[test]
fn reports_become_events() {
    let e = to_event(Progress::NodeNack { node: 1, code: NackCode::Flash, transient: false });
    assert!(matches!(e, Event::NodeNack { node: 1, code, transient: false } if code == "Flash"));
    let e = to_event(Progress::Retry { attempt: 2, of: 3, pending: vec![9] });
    assert!(matches!(e, Event::Retry { attempt: 2, of: 3, pending } if pending == vec![9]));
}

#[test]
fn names_and_files() {
    assert_eq!(board_name(5), "telemetry");
    assert_eq!(board_name(6), "");
    assert!(is_raw_image("BIN") && !is_raw_image("elf") && !is_raw_image(""));
    assert!(is_manifest(Some("Json")) && !is_manifest(Some("bin")) && !is_manifest(None));
    assert_eq!(project_name(" x ", Some("stem")), " x ");
    assert_eq!(project_name(" ", Some("stem")), "stem");
    assert_eq!(project_name("", None), "app");
    assert_eq!(node_status_line(3, "ok"), (true, "[ok] node 3 (ok)".into()));
    assert_eq!(node_status_line(3, "Crc"), (false, "[x] node 3 (Crc)".into()));
}
