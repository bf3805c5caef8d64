use btemp::sensors::{
    is_float_literal, json_attempt, parse_json, parse_text, readings_from_json, stable_series_id,
    text_parses_exec, Json, JsonParseError, JsonShapeError, SensorReading,
};

// Sample `sensors -j` and `sensors` output: an AMD CPU and two NVMe drives.
pub const K10_JSON: &str = r#"{
  "k10temp-pci-00c3": {
    "Adapter": "PCI adapter",
    "Tctl": {"temp1_input": 45.500, "temp1_max": 70.000, "temp1_crit": 100.000, "temp1_crit_hyst": 95.000},
    "Tccd1": {"temp3_input": 40.250},
    "Tccd2": {"temp4_input": 38.750}
  }
}"#;

pub const NVME_JSON: &str = r#"{
  "nvme-pci-0100": {
    "Adapter": "PCI adapter",
    "Composite": {"temp1_input": 38.900, "temp1_max": 81.850, "temp1_min": -273.150, "temp1_crit": 84.850, "temp1_alarm": 0.000},
    "Sensor 2": {"temp3_input": 41.850, "temp3_max": 65261.850, "temp3_min": -273.150}
  },
  "nvme-pci-0200": {
    "Adapter": "PCI adapter",
    "Composite": {"temp1_input": 35.850, "temp1_max": 84.850, "temp1_crit": 87.850}
  }
}"#;

pub const MIXED_TXT: &str = "k10temp-pci-00c3
Adapter: PCI adapter
Tctl:         +45.5\u{b0}C  (high = +70.0\u{b0}C, crit = +100.0\u{b0}C)
Tccd1:        +40.2\u{b0}C
Tccd2:        +38.8\u{b0}C

nvme-pci-0100
Adapter: PCI adapter
Composite:    +38.9\u{b0}C  (low  = -273.1\u{b0}C, high = +81.8\u{b0}C)
                       (crit = +84.8\u{b0}C)
Sensor 2:     +41.9\u{b0}C  (low  = -273.1\u{b0}C, high = +65261.8\u{b0}C)
";

pub fn parse_json_f64(raw: &str) -> Result<Vec<SensorReading<f64>>, JsonParseError> {
    parse_json(raw).map(|v| v.into_iter().map(to_f64).collect())
}

fn to_f64(r: SensorReading<String>) -> SensorReading<f64> {
    SensorReading {
        chip: r.chip,
        adapter: r.adapter,
        label: r.label,
        value_c: r.value_c.parse().unwrap(),
        max_c: r.max_c.map(|m| m.parse().unwrap()),
        crit_c: r.crit_c.map(|c| c.parse().unwrap()),
    }
}

#[test]
fn json_k10temp_parses_tctl_and_ccds() {
    let r = parse_json_f64(K10_JSON).unwrap();
    assert!(r.iter().any(|x| x.label == "Tctl" && (x.value_c - 45.5).abs() < 0.01));
    assert_eq!(
        r.iter().find(|x| x.label == "Tctl").unwrap().crit_c,
        Some(100.0)
    );
    assert!(r.iter().any(|x| x.label == "Tccd1"));
}

#[test]
fn json_nvme_two_chips() {
    let r = parse_json_f64(NVME_JSON).unwrap();
    assert_eq!(r.len(), 3);
    let c0 = r.iter().find(|x| x.chip == "nvme-pci-0100").unwrap();
    assert_eq!(c0.label, "Composite");
    assert!((c0.value_c - 38.9).abs() < 0.01);
}

#[test]
fn text_mixed_matches_jsonish_counts() {
    assert!(text_parses_exec(MIXED_TXT));
    let r: Vec<SensorReading<f64>> = parse_text(MIXED_TXT).into_iter().map(to_f64).collect();
    assert!(r.len() >= 4);
    assert!(r.iter().any(|x| x.label == "Tctl"));
    assert!(r.iter().any(|x| x.chip.contains("nvme")));
}

#[test]
fn json_root_must_be_object() {
    assert_eq!(parse_json("[1, 2]").unwrap_err(), JsonParseError::RootNotObject);
    assert_eq!(parse_json("not json").unwrap_err(), JsonParseError::Invalid);
    assert_eq!(parse_json("{\"a\": 1,}").unwrap_err(), JsonParseError::Invalid);
    assert_eq!(parse_json("{}").unwrap(), vec![]);
    let r = readings_from_json(&Json::Array(vec![])).unwrap_err();
    assert_eq!(r, JsonShapeError::RootNotObject);
}

#[test]
fn json_first_temp_input_and_limits() {
    let raw = r#"{"chip": {"Adapter": "ISA adapter", "weird": 3, "fan1": {"fan1_input": 1200},
        "temp": {"temp2_max": 80, "temp2_input": 50, "temp1_input": 40, "temp_input": 30}}}"#;
    let r = parse_json_f64(raw).unwrap();
    assert_eq!(r.len(), 1);
    // Members are walked in key order: `temp1_input` comes first.
    assert_eq!(r[0].value_c, 40.0);
    assert_eq!(r[0].max_c, None);
    assert_eq!(r[0].adapter, "ISA adapter");
    assert_eq!(r[0].label, "temp");
}

#[test]
fn text_limits_and_literals() {
    let raw = "acpitz-acpi-0\nAdapter: ACPI interface\ntemp1:        +27.8\u{b0}C  (crit = +105.0\u{b0}C)\n";
    let r = parse_text(raw);
    assert_eq!(r.len(), 1);
    assert_eq!(r[0].chip, "acpitz-acpi-0");
    assert_eq!(r[0].adapter, "ACPI interface");
    assert_eq!(r[0].label, "temp1");
    assert_eq!(r[0].value_c, "27.8");
    assert_eq!(r[0].max_c, None);
    assert_eq!(r[0].crit_c.as_deref(), Some("105.0"));
}

#[test]
fn text_lines_without_chip_or_value_are_skipped() {
    let raw = "temp1: +20.0\u{b0}C\n\nchip-x\nfan1: 1200 RPM\nbad: x\u{b0}C\ntemp2: +21.5\u{b0}C\n";
    let r = parse_text(raw);
    assert_eq!(r.len(), 1);
    assert_eq!(r[0].chip, "chip-x");
    assert_eq!(r[0].label, "temp2");
    assert_eq!(r[0].value_c, "21.5");
}

#[test]
fn text_reversed_parentheses_are_refused() {
    assert!(!text_parses_exec("c\ntemp1: +20.0\u{b0}C ) (\n"));
    assert!(text_parses_exec("c\ntemp1: +20.0\u{b0}C ( )\n"));
}

#[test]
fn series_id_joins_chip_and_label() {
    let r = SensorReading { chip: "nvme-pci-0100".to_string(), adapter: String::new(), label: "Composite".to_string(), value_c: 1.0, max_c: None, crit_c: None };
    assert_eq!(stable_series_id(&r), "nvme-pci-0100::Composite");
}

#[test]
fn json_attempt_fallback_rules() {
    let one = vec![SensorReading { chip: "c".to_string(), adapter: String::new(), label: "l".to_string(), value_c: 1.0, max_c: None, crit_c: None }];
    assert!(json_attempt(true, false, Some(one.clone())).is_some());
    assert!(json_attempt(false, false, Some(one.clone())).is_none());
    assert!(json_attempt(true, true, Some(one)).is_none());
    assert!(json_attempt::<f64>(true, false, Some(vec![])).is_none());
    assert!(json_attempt::<f64>(true, false, None).is_none());
}

#[test]
fn float_literals_follow_std() {
    let samples = [
        "1", "1.", ".5", ".", "", "+", "-2.5e3", "1e", "1e+", "1E-7", "inf", "-Infinity", "NaN",
        "nan1", "1.2.3", " 1", "1 ", "+.e1", "0x10", "1_0", "infinit", "+inf", "--1",
    ];
    for s in samples {
        let chars: Vec<char> = s.chars().collect();
        assert_eq!(is_float_literal(&chars), s.parse::<f64>().is_ok(), "input {s:?}");
    }
}

#[test]
fn json_numbers_keep_serde_text() {
    let raw = r#"{"c": {"Adapter": "A", "f": {"temp1_input": 45.500, "temp1_max": 80,
        "extra": [1, [2.25e1, {"y": null, "z": true}], "s"]}}}"#;
    let r = parse_json(raw).unwrap();
    assert_eq!(r.len(), 1);
    assert_eq!(r[0].value_c, "45.5");
    assert_eq!(r[0].max_c.as_deref(), Some("80"));
    assert_eq!(r[0].crit_c, None);
    assert_eq!(r[0].adapter, "A");
    assert_eq!(parse_json("[{\"a\": [1, 2]}]").unwrap_err(), JsonParseError::RootNotObject);
}
