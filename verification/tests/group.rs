use btemp::group::{
    build_storage_drives, classify_panel_kind, cpu_role_for_lowered_label, composite_storage_row_title, cpu_role_for_label,
    group_readings, label_contains_composite_substring, label_is_exact_composite,
    panel_kind_of_lowered, partition_composite_for_chip, sort_series, truncate_label_chars,
    CpuRole, PanelKind, SeriesOrder, SeriesSpec,
};
use btemp::sensors::{JsonParseError, SensorReading};
use btemp::storage_names::NvmeEntry;

const K10_JSON: &str = r#"{
  "k10temp-pci-00c3": {
    "Adapter": "PCI adapter",
    "Tctl": {"temp1_input": 45.500, "temp1_max": 70.000, "temp1_crit": 100.000},
    "Tccd1": {"temp3_input": 40.250},
    "Tccd2": {"temp4_input": 38.750}
  }
}"#;

const NVME_JSON: &str = r#"{
  "nvme-pci-0100": {
    "Adapter": "PCI adapter",
    "Composite": {"temp1_input": 38.900, "temp1_max": 81.850, "temp1_crit": 84.850},
    "Sensor 2": {"temp3_input": 41.850}
  },
  "nvme-pci-0200": {
    "Adapter": "PCI adapter",
    "Composite": {"temp1_input": 35.850}
  }
}"#;

fn parse_json(raw: &str) -> Result<Vec<SensorReading<f64>>, JsonParseError> {
    let v = btemp::sensors::parse_json(raw)?;
    Ok(v.into_iter()
        .map(|r| SensorReading {
            chip: r.chip,
            adapter: r.adapter,
            label: r.label,
            value_c: r.value_c.parse().unwrap(),
            max_c: r.max_c.map(|m| m.parse().unwrap()),
            crit_c: r.crit_c.map(|c| c.parse().unwrap()),
        })
        .collect())
}

fn reading(chip: &str, adapter: &str, label: &str) -> SensorReading<f64> {
    SensorReading {
        chip: chip.to_string(),
        adapter: adapter.to_string(),
        label: label.to_string(),
        value_c: 40.0,
        max_c: None,
        crit_c: None,
    }
}

#[test]
fn classify_panel_kind_matches_grouping() {
    let r = parse_json(K10_JSON).unwrap();
    let tctl = r.iter().find(|x| x.label == "Tctl").unwrap();
    assert_eq!(classify_panel_kind(tctl), PanelKind::Cpu);
}

#[test]
fn cpu_and_storage_panels() {
    let mut r = parse_json(K10_JSON).unwrap();
    r.extend(parse_json(NVME_JSON).unwrap());
    let panels = group_readings(&r, &[]);
    assert!(panels.iter().any(|p| p.kind == PanelKind::Cpu));
    let cpu = panels.iter().find(|p| p.kind == PanelKind::Cpu).unwrap();
    let composites: Vec<_> = cpu
        .series
        .iter()
        .filter(|s| s.cpu_role == Some(CpuRole::Composite))
        .collect();
    assert!(!composites.is_empty());
    let storage = panels.iter().find(|p| p.kind == PanelKind::Storage);
    assert!(storage.is_some());
}

#[test]
fn storage_drives_split_composite_and_aux() {
    let r = parse_json(NVME_JSON).unwrap();
    let panels = group_readings(&r, &[]);
    let st = panels.iter().find(|p| p.kind == PanelKind::Storage).unwrap();
    let d0 = st
        .storage_drives
        .iter()
        .find(|d| d.chip == "nvme-pci-0100")
        .unwrap();
    assert!(d0.composite.as_ref().is_some_and(|c| c.label == "Composite"));
    assert!(d0.sensors.iter().any(|s| s.label == "Sensor 2"));
}

#[test]
fn classification_rules() {
    assert_eq!(classify_panel_kind(&reading("coretemp-isa-0000", "ISA adapter", "Package id 0")), PanelKind::Cpu);
    assert_eq!(classify_panel_kind(&reading("NVME-pci-0100", "PCI adapter", "Composite")), PanelKind::Storage);
    assert_eq!(classify_panel_kind(&reading("amdgpu-pci-0300", "PCI adapter", "edge")), PanelKind::Gpu);
    assert_eq!(classify_panel_kind(&reading("acpitz-acpi-0", "ACPI interface", "temp1")), PanelKind::Motherboard);
    assert_eq!(classify_panel_kind(&reading("nct6798-isa-0290", "ISA adapter", "SYSTIN")), PanelKind::Motherboard);
    assert_eq!(classify_panel_kind(&reading("iwlwifi_1-virtual-0", "Virtual device", "temp1")), PanelKind::Other);
    // A CPU package label goes to the CPU panel whatever the adapter and chip.
    assert_eq!(classify_panel_kind(&reading("foo-isa-0000", "ISA adapter", "Tctl")), PanelKind::Cpu);
    assert_eq!(classify_panel_kind(&reading("nvme-pci-0100", "PCI adapter", "Package")), PanelKind::Cpu);
    // CPU markers win over storage ones.
    assert_eq!(classify_panel_kind(&reading("k10temp", "", "nvme")), PanelKind::Cpu);
}

#[test]
fn cpu_roles() {
    assert_eq!(cpu_role_for_label("Tctl"), CpuRole::Composite);
    assert_eq!(cpu_role_for_label("Package id 0"), CpuRole::Composite);
    assert_eq!(cpu_role_for_label("CPU"), CpuRole::Composite);
    assert_eq!(cpu_role_for_label("Core 3"), CpuRole::Core);
    assert_eq!(cpu_role_for_label("Tccd1"), CpuRole::Core);
    assert_eq!(cpu_role_for_label("edge"), CpuRole::Composite);
}

#[test]
fn composite_labels_and_titles() {
    assert!(label_is_exact_composite("COMPOSITE"));
    assert!(!label_is_exact_composite("Composite 1"));
    assert!(label_contains_composite_substring("My Composite 1"));
    assert!(!label_contains_composite_substring("Sensor 1"));
    assert_eq!(composite_storage_row_title("composite"), "Composite");
    assert_eq!(composite_storage_row_title("Sensor 1"), "Sensor 1");
    assert_eq!(composite_storage_row_title("A very long sensor name"), "A very long…");
    assert_eq!(truncate_label_chars("abc", 0), "…");
    assert_eq!(truncate_label_chars("abc", 3), "abc");
    assert_eq!(truncate_label_chars("abcd", 3), "ab…");
}

#[test]
fn grouping_order_dedup_and_drive_names() {
    let rs = vec![
        reading("nvme-pci-0200", "PCI adapter", "Composite"),
        reading("k10temp-pci-00c3", "PCI adapter", "Tccd2"),
        reading("k10temp-pci-00c3", "PCI adapter", "Tctl"),
        reading("k10temp-pci-00c3", "PCI adapter", "Tccd1"),
        reading("nvme-pci-0100", "PCI adapter", "Sensor 2"),
        reading("nvme-pci-0100", "PCI adapter", "Composite"),
        reading("nvme-pci-0100", "PCI adapter", "Composite"),
        reading("iwlwifi_1-virtual-0", "Virtual device", "temp1"),
    ];
    let entries = vec![NvmeEntry {
        name: "nvme0".to_string(),
        address: Some("0000:01:00.0\n".to_string()),
        model: Some("Fast Drive\n".to_string()),
    }];
    let panels = group_readings(&rs, &entries);
    let kinds: Vec<PanelKind> = panels.iter().map(|p| p.kind).collect();
    assert_eq!(kinds, vec![PanelKind::Cpu, PanelKind::Storage, PanelKind::Other]);
    let titles: Vec<&str> = panels.iter().map(|p| p.title).collect();
    assert_eq!(titles, vec!["CPU", "Storage", "Other"]);
    let cpu: Vec<&str> = panels[0].series.iter().map(|s| s.label.as_str()).collect();
    assert_eq!(cpu, vec!["Tctl", "Tccd1", "Tccd2"]);
    let st: Vec<(&str, &str)> = panels[1].series.iter().map(|s| (s.chip.as_str(), s.label.as_str())).collect();
    assert_eq!(st, vec![("nvme-pci-0100", "Composite"), ("nvme-pci-0100", "Sensor 2"), ("nvme-pci-0200", "Composite")]);
    assert_eq!(panels[1].series[0].display_name, "Fast Drive");
    assert_eq!(panels[1].series[2].display_name, "nvme-pci-0200");
    assert_eq!(panels[1].series[0].id, "nvme-pci-0100::Composite");
    let drives = &panels[1].storage_drives;
    assert_eq!(drives.len(), 2);
    assert_eq!(drives[0].display_name, "Fast Drive");
    assert_eq!(drives[0].composite.as_ref().unwrap().label, "Composite");
    assert_eq!(drives[0].sensors.len(), 1);
    assert_eq!(drives[1].chip, "nvme-pci-0200");
    assert!(drives[1].sensors.is_empty());
    assert!(panels[0].storage_drives.is_empty());
    assert_eq!(panels[2].series[0].display_name, "temp1");
    assert_eq!(panels[2].series[0].cpu_role, None);
}

#[test]
fn empty_readings_give_no_panels() {
    assert!(group_readings::<f64>(&[], &[]).is_empty());
}

fn chars(s: &str) -> Vec<char> {
    s.chars().collect()
}

fn spec(chip: &str, label: &str) -> SeriesSpec<f64> {
    SeriesSpec {
        id: format!("{chip}::{label}"),
        chip: chip.to_string(),
        label: label.to_string(),
        display_name: chip.to_string(),
        max_c: None,
        crit_c: None,
        cpu_role: None,
    }
}

#[test]
fn haystack_rules() {
    assert_eq!(panel_kind_of_lowered(&chars("pci adapter k10temp-pci-00c3 tctl"), &chars("tctl")), PanelKind::Cpu);
    assert_eq!(panel_kind_of_lowered(&chars("isa adapter cpu diode x"), &chars("x")), PanelKind::Cpu);
    assert_eq!(panel_kind_of_lowered(&chars("pci adapter nvme-pci-0100 composite"), &chars("composite")), PanelKind::Storage);
    assert_eq!(panel_kind_of_lowered(&chars("pci adapter radeon-pci-0300 edge"), &chars("edge")), PanelKind::Gpu);
    assert_eq!(panel_kind_of_lowered(&chars("isa adapter it8792e-isa-0a60 temp1"), &chars("temp1")), PanelKind::Motherboard);
    assert_eq!(panel_kind_of_lowered(&chars("virtual device iwlwifi_1-virtual-0 temp1"), &chars("temp1")), PanelKind::Other);
    // The haystack is taken as given: upper case does not match.
    assert_eq!(panel_kind_of_lowered(&chars("K10TEMP"), &chars("K10TEMP")), PanelKind::Other);
    assert_eq!(panel_kind_of_lowered(&[], &[]), PanelKind::Other);
    // A package label goes to the CPU panel whatever the chip.
    assert_eq!(panel_kind_of_lowered(&chars("isa adapter foo-isa-0000 tctl"), &chars("tctl")), PanelKind::Cpu);
    assert_eq!(panel_kind_of_lowered(&chars("x y package id 0"), &chars("package id 0")), PanelKind::Cpu);
    assert_eq!(panel_kind_of_lowered(&chars("x y tdie"), &chars("tdie")), PanelKind::Cpu);
    // Only the label counts for these words.
    assert_eq!(panel_kind_of_lowered(&chars("tctl y z"), &chars("z")), PanelKind::Other);
}

#[test]
fn every_series_shown_once_in_the_panel_of_its_kind() {
    let rs = vec![
        reading("amdgpu-pci-0300", "PCI adapter", "edge"),
        reading("k10temp-pci-00c3", "PCI adapter", "Tctl"),
        reading("amdgpu-pci-0300", "PCI adapter", "edge"),
        reading("acpitz-acpi-0", "ACPI interface", "temp1"),
        reading("nvme-pci-0100", "PCI adapter", "Composite"),
        reading("k10temp-pci-00c3", "PCI adapter", "Tctl"),
    ];
    let panels = group_readings(&rs, &[]);
    let kinds: Vec<PanelKind> = panels.iter().map(|p| p.kind).collect();
    assert_eq!(kinds, vec![PanelKind::Cpu, PanelKind::Storage, PanelKind::Gpu, PanelKind::Motherboard]);
    let mut ids: Vec<String> = Vec::new();
    for p in &panels {
        assert!(!p.series.is_empty());
        for s in &p.series {
            assert!(!ids.contains(&s.id));
            ids.push(s.id.clone());
            let r = rs.iter().find(|r| format!("{}::{}", r.chip, r.label) == s.id).unwrap();
            assert_eq!(classify_panel_kind(r), p.kind);
        }
    }
    assert_eq!(ids.len(), 4);
}

#[test]
fn drives_group_series_by_chip() {
    let series = vec![
        spec("nvme-b", "Sensor 1"),
        spec("nvme-a", "Sensor 2"),
        spec("nvme-b", "Composite"),
        spec("nvme-a", "Sensor 1"),
    ];
    let drives = build_storage_drives(&series);
    let chips: Vec<&str> = drives.iter().map(|d| d.chip.as_str()).collect();
    assert_eq!(chips, vec!["nvme-a", "nvme-b"]);
    // No composite label: the first sensor by label stands in.
    assert_eq!(drives[0].composite.as_ref().unwrap().label, "Sensor 1");
    assert_eq!(drives[0].sensors.iter().map(|s| s.label.as_str()).collect::<Vec<_>>(), vec!["Sensor 2"]);
    assert_eq!(drives[1].composite.as_ref().unwrap().label, "Composite");
    assert_eq!(drives[1].sensors.iter().map(|s| s.label.as_str()).collect::<Vec<_>>(), vec!["Sensor 1"]);
    for d in &drives {
        assert!(d.sensors.iter().all(|s| s.chip == d.chip));
    }
}

#[test]
fn composite_partition_prefers_exact_label() {
    let (c, rest) = partition_composite_for_chip(vec![spec("n", "Composite 2"), spec("n", "composite"), spec("n", "A")]);
    assert_eq!(c.unwrap().label, "composite");
    assert_eq!(rest.iter().map(|s| s.label.as_str()).collect::<Vec<_>>(), vec!["A", "Composite 2"]);
    let (c, rest) = partition_composite_for_chip(vec![spec("n", "B"), spec("n", "My Composite")]);
    assert_eq!(c.unwrap().label, "My Composite");
    assert_eq!(rest.len(), 1);
    let (c, rest) = partition_composite_for_chip::<f64>(vec![]);
    assert!(c.is_none() && rest.is_empty());
}

#[test]
fn sorting_is_stable() {
    let mut a = spec("x", "same");
    a.id = "first".to_string();
    let mut b = spec("x", "same");
    b.id = "second".to_string();
    let sorted = sort_series(vec![spec("x", "z"), a, spec("w", "q"), b], SeriesOrder::ByChipThenLabel);
    let ids: Vec<&str> = sorted.iter().map(|s| s.id.as_str()).collect();
    assert_eq!(ids, vec!["w::q", "first", "second", "x::z"]);
    let byl = sort_series(vec![spec("b", "2"), spec("a", "10")], SeriesOrder::ByLabel);
    assert_eq!(byl[0].label, "10");
}

#[test]
fn lowered_label_roles() {
    assert_eq!(cpu_role_for_lowered_label(&chars("tctl")), CpuRole::Composite);
    assert_eq!(cpu_role_for_lowered_label(&chars("cpu")), CpuRole::Composite);
    assert_eq!(cpu_role_for_lowered_label(&chars("core 0")), CpuRole::Core);
    assert_eq!(cpu_role_for_lowered_label(&chars("tccd2")), CpuRole::Core);
    // Taken as given: an upper-case label is not recognised here.
    assert_eq!(cpu_role_for_lowered_label(&chars("Core 0")), CpuRole::Composite);
    assert_eq!(cpu_role_for_lowered_label(&chars("cpu1")), CpuRole::Composite);
}
