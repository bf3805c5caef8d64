use btemp::storage_names::{
    chip_slicing_ok_exec, hex_u8, lowered_chip_slicing_ok, pci_address_matches_bus_dev, pci_bus_dev_from_lowered_chip,
    pci_bus_dev_from_nvme_chip,
    storage_drive_label, NvmeEntry,
};

#[test]
fn pci_address_parsing() {
    assert!(pci_address_matches_bus_dev("0000:01:00.0", 1, 0));
    assert!(pci_address_matches_bus_dev("0000:65:00.0", 0x65, 0));
    assert!(!pci_address_matches_bus_dev("0000:01:00.0", 2, 0));
}

#[test]
fn chip_suffix_parsing() {
    assert_eq!(pci_bus_dev_from_nvme_chip("nvme-pci-0100"), Some((1, 0)));
    assert_eq!(pci_bus_dev_from_nvme_chip("NVME-PCI-6500"), Some((0x65, 0)));
    assert_eq!(pci_bus_dev_from_nvme_chip("nvme-pci-deadbeef0100"), Some((1, 0)));
}

#[test]
fn chip_suffix_rejects_other_names() {
    assert_eq!(pci_bus_dev_from_nvme_chip("k10temp-pci-00c3"), None);
    assert_eq!(pci_bus_dev_from_nvme_chip("nvme-pci-010"), None);
    assert_eq!(pci_bus_dev_from_nvme_chip("nvme-pci-zz00"), None);
    assert_eq!(pci_bus_dev_from_nvme_chip("nvme-pci-+1+0"), Some((1, 0)));
}

#[test]
fn address_edge_cases() {
    assert!(pci_address_matches_bus_dev("  0000:01:00.0\n", 1, 0));
    assert!(!pci_address_matches_bus_dev("01:00.0", 1, 0));
    assert!(!pci_address_matches_bus_dev("0000:xx:00.0", 1, 0));
    assert!(pci_address_matches_bus_dev("0000:01:1f", 1, 0x1f));
    assert!(!pci_address_matches_bus_dev("0000:01:100.0", 1, 0));
}

#[test]
fn hex_parse_matches_std() {
    let samples = [
        "", "+", "-", "0", "00", "ff", "FF", "fF", "100", "0ff", "+1", "+ff", "-1", "g", "1g", " 1",
        "1 ", "0000000ff", "0000001ff", "é", "++1",
    ];
    for s in samples {
        let chars: Vec<char> = s.chars().collect();
        assert_eq!(hex_u8(&chars), u8::from_str_radix(s, 16).ok(), "input {s:?}");
    }
}

fn entry(name: &str, address: Option<&str>, model: Option<&str>) -> NvmeEntry {
    NvmeEntry {
        name: name.to_string(),
        address: address.map(|s| s.to_string()),
        model: model.map(|s| s.to_string()),
    }
}

#[test]
fn drive_label_from_sysfs_snapshot() {
    let entries = vec![
        entry("nvme-subsys0", None, None),
        entry("nvme0", Some("0000:02:00.0\n"), Some("Other Drive\n")),
        entry("nvme1", Some("0000:01:00.0\n"), Some("  Samsung SSD 990 PRO 2TB  \n")),
    ];
    assert_eq!(storage_drive_label("nvme-pci-0100", &entries), "Samsung SSD 990 PRO 2TB");
    assert_eq!(storage_drive_label("nvme-pci-0200", &entries), "Other Drive");
    assert_eq!(storage_drive_label("nvme-pci-0300", &entries), "nvme-pci-0300");
    assert_eq!(storage_drive_label("acpitz-acpi-0", &entries), "acpitz-acpi-0");
}

#[test]
fn drive_label_read_failures() {
    // An unreadable address ends the search.
    let entries = vec![entry("nvme0", None, None), entry("nvme1", Some("0000:01:00.0"), Some("M"))];
    assert_eq!(storage_drive_label("nvme-pci-0100", &entries), "nvme-pci-0100");
    // A blank model is skipped, an unreadable one ends the search.
    let entries = vec![
        entry("nvme0", Some("0000:01:00.0"), Some("   ")),
        entry("nvme1", Some("0000:01:00.0"), Some("Second")),
    ];
    assert_eq!(storage_drive_label("nvme-pci-0100", &entries), "Second");
    let entries = vec![
        entry("nvme0", Some("0000:01:00.0"), None),
        entry("nvme1", Some("0000:01:00.0"), Some("Second")),
    ];
    assert_eq!(storage_drive_label("nvme-pci-0100", &entries), "nvme-pci-0100");
}

#[test]
fn non_boundary_chip_name_is_kept() {
    // The last four bytes of this suffix do not start on a character boundary.
    let chip = "nvme-pci-00\u{e9}1";
    assert!(!chip_slicing_ok_exec(chip));
    assert_eq!(storage_drive_label(chip, &[]), chip);
    assert!(chip_slicing_ok_exec("nvme-pci-0100"));
}

#[test]
fn lowered_chip_parsing() {
    assert_eq!(pci_bus_dev_from_lowered_chip("nvme-pci-6500"), Some((0x65, 0)));
    assert_eq!(pci_bus_dev_from_lowered_chip("nvme-pci-ab0f"), Some((0xab, 0x0f)));
    // The input is taken as already lowercased.
    assert_eq!(pci_bus_dev_from_lowered_chip("NVME-PCI-6500"), None);
    assert_eq!(pci_bus_dev_from_lowered_chip("nvme-pci-"), None);
}

#[test]
fn lowered_chip_boundaries() {
    assert!(lowered_chip_slicing_ok("nvme-pci-0100"));
    assert!(lowered_chip_slicing_ok("nvme-pci-ab€0100"));
    assert!(!lowered_chip_slicing_ok("nvme-pci-1€00"));
    assert!(lowered_chip_slicing_ok("NVME-PCI-1€00"));
    assert!(lowered_chip_slicing_ok("nvme-pci-"));
}

#[test]
fn formatted_names_and_addresses_round_trip() {
    for &(bus, dev) in &[(0u8, 0u8), (1, 0), (0x65, 0x1f), (0xff, 0xab)] {
        for p in ["", "0000", "dead", "xyz-"] {
            let chip = format!("nvme-pci-{}{:02x}{:02x}", p, bus, dev);
            assert_eq!(pci_bus_dev_from_nvme_chip(&chip), Some((bus, dev)));
            assert_eq!(pci_bus_dev_from_lowered_chip(&chip), Some((bus, dev)));
        }
        for seg in ["0000", "", " 10000"] {
            for f in 0..8u8 {
                let addr = format!("{}:{:02x}:{:02x}.{}", seg, bus, dev, f);
                assert!(pci_address_matches_bus_dev(&addr, bus, dev));
                assert!(!pci_address_matches_bus_dev(&addr, bus.wrapping_add(1), dev));
                assert!(!pci_address_matches_bus_dev(&addr, bus, dev.wrapping_add(1)));
            }
        }
    }
}
