use btemp::group::{PanelKind, SeriesSpec, StorageDriveSpec};
use btemp::layout::Area;
use btemp::sensors::SensorReading;
use btemp::ui::{
    cpu_composite_and_cores, decimal_chars, faster_poll, key_command, key_wait_us, poll_due, label_column_width,
    panel_block_title, plan_drives, plan_labeled_row, plan_panels, plan_rows, row_label_prefix,
    slower_poll, truncate, DrawCmd, KeyCommand, Monitor, RowLabel, DEFAULT_POLL_MS, HISTORY_CAP,
    MAX_POLL_MS, MIN_POLL_MS,
};
use ratatui::layout::{Constraint, Direction, Layout, Rect};

fn reading(chip: &str, adapter: &str, label: &str, v: f64) -> SensorReading<f64> {
    SensorReading {
        chip: chip.to_string(),
        adapter: adapter.to_string(),
        label: label.to_string(),
        value_c: v,
        max_c: None,
        crit_c: None,
    }
}

fn series(id: &str, chip: &str, label: &str, display: &str) -> SeriesSpec<f64> {
    SeriesSpec {
        id: id.to_string(),
        chip: chip.to_string(),
        label: label.to_string(),
        display_name: display.to_string(),
        max_c: None,
        crit_c: None,
        cpu_role: None,
    }
}

/// A drawing step as (kind, area, first text, second text).
fn flat(c: &DrawCmd) -> (&'static str, Area, String, String) {
    match c {
        DrawCmd::Message { area, text } => ("message", *area, text.clone(), String::new()),
        DrawCmd::Frame { area, title } => ("frame", *area, title.clone(), String::new()),
        DrawCmd::Heading { area, text } => ("heading", *area, text.clone(), String::new()),
        DrawCmd::RowLabel { area, prefix, series_id } => {
            ("label", *area, prefix.clone(), series_id.clone())
        }
        DrawCmd::Chart { area, series_id } => ("chart", *area, series_id.clone(), String::new()),
        DrawCmd::Footer { area, text } => ("footer", *area, text.clone(), String::new()),
    }
}

fn area(x: u16, y: u16, width: u16, height: u16) -> Area {
    Area { x, y, width, height }
}

fn rect_area(r: Rect) -> Area {
    area(r.x, r.y, r.width, r.height)
}

fn split(a: Area, dir: Direction, constraints: Vec<Constraint>) -> Vec<Area> {
    let r = Rect { x: a.x, y: a.y, width: a.width, height: a.height };
    Layout::default()
        .direction(dir)
        .constraints(constraints)
        .split(r)
        .iter()
        .map(|r| rect_area(*r))
        .collect()
}

#[test]
fn keys_map_to_commands() {
    assert_eq!(key_command('q'), KeyCommand::Quit);
    assert_eq!(key_command('Q'), KeyCommand::Quit);
    assert_eq!(key_command('r'), KeyCommand::Refresh);
    assert_eq!(key_command('R'), KeyCommand::Refresh);
    assert_eq!(key_command('+'), KeyCommand::Slower);
    assert_eq!(key_command('='), KeyCommand::Slower);
    assert_eq!(key_command('-'), KeyCommand::Faster);
    assert_eq!(key_command('_'), KeyCommand::Faster);
    assert_eq!(key_command('x'), KeyCommand::Ignore);
}

#[test]
fn poll_steps_and_bounds() {
    assert_eq!(slower_poll(1000), 1250);
    assert_eq!(slower_poll(9900), 10000);
    assert_eq!(slower_poll(10000), 10000);
    assert_eq!(slower_poll(0), 250);
    assert_eq!(slower_poll(u64::MAX), 10000);
    assert_eq!(faster_poll(1000), 750);
    assert_eq!(faster_poll(500), 250);
    assert_eq!(faster_poll(250), 250);
    assert_eq!(faster_poll(0), 250);
    assert_eq!(faster_poll(slower_poll(1000)), 1000);
    assert_eq!(slower_poll(faster_poll(1000)), 1000);
}

#[test]
fn keys_keep_poll_interval_in_range() {
    let mut m: Monitor<f64> = Monitor::new();
    assert_eq!(m.poll_ms, DEFAULT_POLL_MS);
    for _ in 0..100 {
        assert_eq!(m.handle_key('+'), KeyCommand::Slower);
        assert!(MIN_POLL_MS <= m.poll_ms && m.poll_ms <= MAX_POLL_MS);
    }
    assert_eq!(m.poll_ms, MAX_POLL_MS);
    for _ in 0..100 {
        assert_eq!(m.handle_key('_'), KeyCommand::Faster);
        assert!(MIN_POLL_MS <= m.poll_ms && m.poll_ms <= MAX_POLL_MS);
    }
    assert_eq!(m.poll_ms, MIN_POLL_MS);
    assert_eq!(m.handle_key('q'), KeyCommand::Quit);
    assert_eq!(m.handle_key('r'), KeyCommand::Refresh);
    assert_eq!(m.poll_ms, MIN_POLL_MS);
}

#[test]
fn label_widths() {
    assert_eq!(label_column_width(100, RowLabel::Normal), 26);
    assert_eq!(label_column_width(40, RowLabel::Normal), 12);
    assert_eq!(label_column_width(20, RowLabel::Normal), 11);
    assert_eq!(label_column_width(6, RowLabel::Normal), 11);
    assert_eq!(label_column_width(50, RowLabel::StorageAux), 14);
    assert_eq!(label_column_width(50, RowLabel::StorageComposite), 15);
    assert_eq!(label_column_width(u16::MAX, RowLabel::Normal), 26);
    assert_eq!(label_column_width(0, RowLabel::StorageAux), 11);
}

#[test]
fn decimal_digits() {
    assert_eq!(decimal_chars(0), vec!['0']);
    assert_eq!(decimal_chars(1000).into_iter().collect::<String>(), "1000");
    assert_eq!(decimal_chars(u64::MAX).into_iter().collect::<String>(), u64::MAX.to_string());
}

#[test]
fn truncation() {
    assert_eq!(truncate("abcdef", 4), "abc…");
    assert_eq!(truncate("abc", 3), "abc");
    assert_eq!(truncate("abc", 0), "…");
    assert_eq!(truncate("äöüß", 2), "ä…");
    let cut = truncate("Samsung SSD 990 PRO 2TB with a long name", 10);
    assert_eq!(cut.chars().count(), 10);
    assert_eq!(truncate(&cut, 10), cut);
}

#[test]
fn panel_titles() {
    assert_eq!(panel_block_title(PanelKind::Cpu, "CPU", &None), " CPU (CPU) ");
    assert_eq!(
        panel_block_title(PanelKind::Cpu, "CPU", &Some("AMD Ryzen 9 9950X".to_string())),
        " CPU — AMD Ryzen 9 9950X "
    );
    let long = "x".repeat(60);
    let t = panel_block_title(PanelKind::Cpu, "CPU", &Some(long));
    assert_eq!(t, format!(" CPU — {}… ", "x".repeat(55)));
    assert_eq!(panel_block_title(PanelKind::Gpu, "GPU", &Some("ignored".to_string())), " GPU ");
}

#[test]
fn row_label_prefixes() {
    let s = series("c::Composite", "c", "Composite", "Samsung SSD 990 PRO 2TB");
    assert_eq!(row_label_prefix(RowLabel::Normal, &s), "Samsung SSD 990 PRO 2TB");
    assert_eq!(row_label_prefix(RowLabel::StorageComposite, &s), "Composite");
    let a = series("c::Sensor 2", "c", "Sensor 2", "Samsung SSD 990 PRO 2TB");
    assert_eq!(row_label_prefix(RowLabel::Normal, &a), "Samsung SSD 990 PRO 2… · Sensor 2");
    assert_eq!(row_label_prefix(RowLabel::StorageAux, &a), "Sensor 2");
    assert_eq!(row_label_prefix(RowLabel::StorageComposite, &a), "Sensor 2");
    let t = series("k::Tctl", "k", "Tctl", "Tctl");
    assert_eq!(row_label_prefix(RowLabel::Normal, &t), "Tctl");
}

#[test]
fn composite_and_cores_split() {
    let mut a = series("a", "k", "Tctl", "Tctl");
    a.cpu_role = Some(btemp::group::CpuRole::Composite);
    let mut b = series("b", "k", "Tccd1", "Tccd1");
    b.cpu_role = Some(btemp::group::CpuRole::Core);
    let c = series("c", "k", "other", "other");
    let (comps, cores) = cpu_composite_and_cores(&[a, b, c]);
    assert_eq!(comps.iter().map(|s| s.id.as_str()).collect::<Vec<_>>(), vec!["a"]);
    assert_eq!(cores.iter().map(|s| s.id.as_str()).collect::<Vec<_>>(), vec!["b", "c"]);
}

#[test]
fn labeled_row_geometry() {
    let s = series("k::Tctl", "k", "Tctl", "Tctl");
    let mut out = Vec::new();
    plan_labeled_row(&mut out, area(1, 2, 98, 5), &s, RowLabel::Normal);
    let f: Vec<_> = out.iter().map(flat).collect();
    assert_eq!(
        f,
        vec![
            ("label", area(1, 2, 26, 5), "Tctl".to_string(), "k::Tctl".to_string()),
            ("chart", area(27, 2, 72, 5), "k::Tctl".to_string(), String::new()),
        ]
    );
    let mut none = Vec::new();
    plan_labeled_row(&mut none, area(0, 0, 5, 5), &s, RowLabel::Normal);
    plan_labeled_row(&mut none, area(0, 0, 50, 0), &s, RowLabel::Normal);
    plan_labeled_row(&mut none, area(u16::MAX - 10, 0, 10, 3), &s, RowLabel::Normal);
    assert!(none.is_empty());
    let mut narrow = Vec::new();
    plan_labeled_row(&mut narrow, area(0, 0, 8, 1), &s, RowLabel::Normal);
    let f: Vec<_> = narrow.iter().map(flat).collect();
    assert_eq!(f[0].1, area(0, 0, 11, 1));
    assert_eq!(f[1].1, area(11, 0, 1, 1));
}

#[test]
fn rows_pair_areas_with_series() {
    let a = series("x::A", "x", "A", "A");
    let b = series("x::B", "x", "B", "B");
    let areas = vec![area(0, 0, 40, 3), area(0, 3, 40, 3)];
    let mut out = Vec::new();
    plan_rows(&mut out, &areas, &[a, b], RowLabel::StorageAux);
    let f: Vec<_> = out.iter().map(flat).collect();
    assert_eq!(f.len(), 4);
    assert_eq!(f[0], ("label", area(0, 0, 11, 3), "A".to_string(), "x::A".to_string()));
    assert_eq!(f[1], ("chart", area(11, 0, 29, 3), "x::A".to_string(), String::new()));
    assert_eq!(f[2], ("label", area(0, 3, 11, 3), "B".to_string(), "x::B".to_string()));
    // Fewer areas than series: the rest is not drawn.
    let mut short = Vec::new();
    plan_rows(&mut short, &vec![area(0, 0, 40, 3)], &[series("s", "c", "l", "l"), series("t", "c", "m", "m")], RowLabel::Normal);
    assert_eq!(short.len(), 2);
}

#[test]
fn empty_screen_message_and_footer() {
    let mut m: Monitor<f64> = Monitor::new();
    let cmds: Vec<_> = m.plan_frame(area(0, 0, 80, 24)).iter().map(flat).collect();
    assert_eq!(
        cmds,
        vec![
            (
                "message",
                area(0, 0, 80, 23),
                "btemp — no temperature sensors found.".to_string(),
                String::new()
            ),
            (
                "footer",
                area(0, 23, 80, 1),
                " q quit | r refresh | +/- interval (1000ms) ".to_string(),
                String::new()
            ),
        ]
    );
    m.poll_failed("sensors exited with status 1".to_string());
    let cmds: Vec<_> = m.plan_frame(area(0, 0, 80, 24)).iter().map(flat).collect();
    assert_eq!(cmds[0].1, area(0, 0, 80, 22));
    assert_eq!(
        cmds[0].2,
        "btemp — no sensor data\n\nsensors exited with status 1\n\nInstall lm-sensors, run sensors-detect, and ensure `sensors` is on PATH."
    );
    assert_eq!(cmds[1].1, area(0, 22, 80, 2));
    assert_eq!(
        cmds[1].2,
        "sensors exited with status 1\n q quit | r refresh | +/- interval (1000ms) "
    );
    // A one-line screen keeps only the footer line.
    let cmds: Vec<_> = m.plan_frame(area(0, 0, 80, 1)).iter().map(flat).collect();
    assert_eq!(cmds[0].1, area(0, 0, 80, 0));
    assert_eq!(cmds[1].1, area(0, 0, 80, 1));
}

#[test]
fn cpu_panel_plan() {
    let mut m: Monitor<f64> = Monitor::new();
    let rs = vec![
        reading("k10temp-pci-00c3", "PCI adapter", "Tctl", 45.5),
        reading("k10temp-pci-00c3", "PCI adapter", "Tccd1", 40.25),
    ];
    m.poll_succeeded(&rs, Some("AMD Ryzen 9 9950X 16-Core Processor".to_string()), &[]);
    let full = area(0, 0, 100, 30);
    let cmds: Vec<_> = m.plan_frame(full).iter().map(flat).collect();
    // One panel fills the screen above the footer; its inside is one cell in from the border.
    assert_eq!(
        cmds[0],
        (
            "frame",
            area(0, 0, 100, 29),
            " CPU — AMD Ryzen 9 9950X 16-Core Processor ".to_string(),
            String::new()
        )
    );
    let inner = area(1, 1, 98, 27);
    let rows = split(inner, Direction::Vertical, vec![Constraint::Fill(1), Constraint::Fill(1)]);
    // Composite row: one graph, one cell narrower than the row.
    assert_eq!(
        cmds[1],
        (
            "label",
            area(1, rows[0].y, 26, rows[0].height),
            "Tctl".to_string(),
            "k10temp-pci-00c3::Tctl".to_string()
        )
    );
    assert_eq!(cmds[2].1, area(27, rows[0].y, 71, rows[0].height));
    // Core row.
    assert_eq!(cmds[3].1, area(1, rows[1].y, 26, rows[1].height));
    assert_eq!(cmds[3].3, "k10temp-pci-00c3::Tccd1");
    assert_eq!(cmds[4].1, area(27, rows[1].y, 72, rows[1].height));
    assert_eq!(cmds[5].0, "footer");
    assert_eq!(cmds[5].1, area(0, 29, 100, 1));
    assert_eq!(cmds.len(), 6);
}

#[test]
fn storage_panel_plan_by_drive() {
    let mut m: Monitor<f64> = Monitor::new();
    let rs = vec![
        reading("nvme-pci-0100", "PCI adapter", "Composite", 38.9),
        reading("nvme-pci-0100", "PCI adapter", "Sensor 2", 41.85),
    ];
    m.poll_succeeded(&rs, None, &[]);
    let cmds: Vec<_> = m.plan_frame(area(0, 0, 60, 12)).iter().map(flat).collect();
    assert_eq!(cmds[0].0, "frame");
    assert_eq!(cmds[0].2, " Storage ");
    let inner = area(1, 1, 58, 9);
    let drive = split(inner, Direction::Vertical, vec![Constraint::Fill(1)])[0];
    let head = split(drive, Direction::Vertical, vec![Constraint::Length(1), Constraint::Fill(1)]);
    assert_eq!(cmds[1], ("heading", head[0], "nvme-pci-0100".to_string(), String::new()));
    let cols = split(
        head[1],
        Direction::Horizontal,
        vec![Constraint::Percentage(67), Constraint::Percentage(33)],
    );
    assert_eq!(cmds[2].0, "label");
    assert_eq!(cmds[2].1.x, cols[0].x);
    assert_eq!(cmds[2].2, "Composite");
    assert_eq!(cmds[2].3, "nvme-pci-0100::Composite");
    assert_eq!(cmds[3].0, "chart");
    let right = split(cols[1], Direction::Vertical, vec![Constraint::Fill(1)]);
    assert_eq!(cmds[4].0, "label");
    assert_eq!(cmds[4].1.x, right[0].x);
    assert_eq!(cmds[4].2, "Sensor 2");
    assert_eq!(cmds[5].0, "chart");
    assert_eq!(cmds[6].0, "footer");
}

#[test]
fn drives_and_panels_pair_with_given_areas() {
    let d = StorageDriveSpec {
        display_name: "Drive".to_string(),
        chip: "c".to_string(),
        composite: Some(series("c::Composite", "c", "Composite", "Drive")),
        sensors: vec![],
    };
    let mut out = Vec::new();
    plan_drives(&mut out, &vec![area(0, 0, 50, 1)], &[d]);
    // Too low for a drive: nothing drawn.
    assert!(out.is_empty());
    let d = StorageDriveSpec {
        display_name: "Drive".to_string(),
        chip: "c".to_string(),
        composite: Some(series("c::Composite", "c", "Composite", "Drive")),
        sensors: vec![],
    };
    plan_drives(&mut out, &vec![area(0, 0, 50, 4)], &[d]);
    let f: Vec<_> = out.iter().map(flat).collect();
    assert_eq!(f[0], ("heading", area(0, 0, 50, 1), "Drive".to_string(), String::new()));
    // Composite only: the whole body, labelled like other rows.
    assert_eq!(f[1], ("label", area(0, 1, 16, 3), "Drive".to_string(), "c::Composite".to_string()));

    let mut m: Monitor<f64> = Monitor::new();
    m.poll_succeeded(&[reading("acpitz-acpi-0", "ACPI interface", "temp1", 30.0)], None, &[]);
    let mut out = Vec::new();
    plan_panels(&mut out, &vec![area(0, 0, 40, 6)], &m.panels, &None);
    let f: Vec<_> = out.iter().map(flat).collect();
    assert_eq!(f[0], ("frame", area(0, 0, 40, 6), " Motherboard ".to_string(), String::new()));
    assert_eq!(f[1].1, area(1, 1, 12, 4));
    assert_eq!(f[2].1, area(13, 1, 26, 4));
    let mut none = Vec::new();
    plan_panels(&mut none, &vec![], &m.panels, &None);
    assert!(none.is_empty());
}

#[test]
fn poll_records_history_for_every_series() {
    let mut m: Monitor<f64> = Monitor::new();
    let rs = vec![
        reading("k10temp-pci-00c3", "PCI adapter", "Tctl", 45.0),
        reading("nvme-pci-0100", "PCI adapter", "Composite", 38.0),
        reading("k10temp-pci-00c3", "PCI adapter", "Tctl", 47.0),
    ];
    m.poll_succeeded(&rs, None, &[]);
    // The newest sample of a series is the value of the last reading with its id.
    let b = m.history.buffer("k10temp-pci-00c3::Tctl").unwrap();
    assert_eq!(b.as_slice(), vec![45.0, 47.0]);
    assert_eq!(b.last(), Some(47.0));
    assert_eq!(m.history.buffer("nvme-pci-0100::Composite").unwrap().last(), Some(38.0));
    // Every series on screen has a buffer; a repeated reading shows once.
    let ids: Vec<&str> = m
        .panels
        .iter()
        .flat_map(|p| p.series.iter().map(|s| s.id.as_str()))
        .collect();
    assert_eq!(ids, vec!["k10temp-pci-00c3::Tctl", "nvme-pci-0100::Composite"]);
    for id in &ids {
        assert!(m.history.buffer(id).is_some());
    }
    // The next poll appends; a failed poll keeps panels and history.
    m.poll_succeeded(&rs[..1], Some("CPU".to_string()), &[]);
    assert_eq!(m.history.buffer("k10temp-pci-00c3::Tctl").unwrap().as_slice(), vec![45.0, 47.0, 45.0]);
    assert_eq!(m.history.buffer("nvme-pci-0100::Composite").unwrap().as_slice(), vec![38.0]);
    assert_eq!(m.panels.len(), 1);
    assert_eq!(m.cpu_model.as_deref(), Some("CPU"));
    m.poll_failed("boom".to_string());
    assert_eq!(m.last_error.as_deref(), Some("boom"));
    assert_eq!(m.panels.len(), 1);
    m.poll_succeeded(&rs[..1], None, &[]);
    assert!(m.last_error.is_none());
    assert_eq!(m.cpu_model.as_deref(), Some("CPU"));
}

#[test]
fn history_window_is_the_chart_width() {
    let mut m: Monitor<u32> = Monitor::new();
    for v in 0..(HISTORY_CAP as u32 + 5) {
        let r = SensorReading {
            chip: "c".to_string(),
            adapter: String::new(),
            label: "t".to_string(),
            value_c: v,
            max_c: None,
            crit_c: None,
        };
        m.apply_readings(&[r], None, &[]);
    }
    let vals = m.history.buffer("c::t").unwrap().as_slice();
    assert_eq!(vals.len(), HISTORY_CAP);
    assert_eq!(vals[0], 5);
    assert_eq!(*vals.last().unwrap(), HISTORY_CAP as u32 + 4);
}

#[test]
fn poll_timing() {
    assert!(!poll_due(999_999, 1000));
    assert!(poll_due(1_000_000, 1000));
    assert!(poll_due(5_000_000, 1000));
    assert!(!poll_due(u64::MAX, u64::MAX));
    assert_eq!(key_wait_us(0, 1000), 50_000);
    assert_eq!(key_wait_us(980_000, 1000), 20_000);
    assert_eq!(key_wait_us(2_000_000, 1000), 0);
    assert_eq!(key_wait_us(0, 0), 0);
    assert_eq!(key_wait_us(u64::MAX, u64::MAX), 50_000);
}
