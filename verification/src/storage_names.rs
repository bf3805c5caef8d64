//! Human-readable NVMe drive labels from a snapshot of sysfs
//! (`/sys/class/nvme/*/address` and `model`) and the hwmon chip name.

use vstd::prelude::*;
use crate::text::{
    lead_ws, trail_ws,
    all_ascii_digits, chars_of, is_ascii_digit, split_char, split_on_char,
    spec_to_lowercase, string_from_chars, strip_prefix, strip_prefix_str, to_lowercase,
    trim, trim_chars, views,
};

verus! {

/// One entry of `/sys/class/nvme` as read by the caller: its file name, the content
/// of its `address` file and of its `model` file (`None` where the read failed).
pub struct NvmeEntry {
    pub name: String,
    pub address: Option<String>,
    pub model: Option<String>,
}

// ---------------------------------------------------------------------------
// Hexadecimal `u8` (`u8::from_str_radix(s, 16)`)
// ---------------------------------------------------------------------------

/// Value of a hexadecimal digit.
pub open spec fn hex_digit_value(c: char) -> Option<nat> {
    if '0' <= c && c <= '9' {
        Some((c as u32 - '0' as u32) as nat)
    } else if 'a' <= c && c <= 'f' {
        Some((c as u32 - 'a' as u32 + 10) as nat)
    } else if 'A' <= c && c <= 'F' {
        Some((c as u32 - 'A' as u32 + 10) as nat)
    } else {
        None
    }
}

/// Value of a string of hexadecimal digits (`None` if a character is not a digit).
pub open spec fn hex_value(ds: Seq<char>) -> Option<nat>
    decreases ds.len(),
{
    if ds.len() == 0 {
        Some(0)
    } else {
        match (hex_value(ds.drop_last()), hex_digit_value(ds.last())) {
            (Some(a), Some(d)) => Some(a * 16 + d),
            _ => None,
        }
    }
}

/// `u8::from_str_radix(s, 16)`: an optional `+`, then at least one hexadecimal digit,
/// nothing else, and a value below 256.
pub open spec fn hex_u8_of(s: Seq<char>) -> Option<u8> {
    let ds = if s.len() > 0 && s[0] == '+' {
        s.drop_first()
    } else {
        s
    };
    if ds.len() == 0 {
        None
    } else {
        match hex_value(ds) {
            Some(v) => if v < 256 {
                Some(v as u8)
            } else {
                None
            },
            None => None,
        }
    }
}

fn hex_digit(c: char) -> (r: Option<u32>)
    ensures
        r matches Some(v) ==> hex_digit_value(c) == Some(v as nat) && v < 16,
        r is None ==> hex_digit_value(c) is None,
{
    if '0' <= c && c <= '9' {
        Some(c as u32 - '0' as u32)
    } else if 'a' <= c && c <= 'f' {
        Some(c as u32 - 'a' as u32 + 10)
    } else if 'A' <= c && c <= 'F' {
        Some(c as u32 - 'A' as u32 + 10)
    } else {
        None
    }
}

/// Parse a `u8` written in hexadecimal, as `u8::from_str_radix(s, 16)` does.
pub fn hex_u8(s: &[char]) -> (r: Option<u8>)
    ensures
        r == hex_u8_of(s@),
{
    let start: usize = if s.len() > 0 && s[0] == '+' {
        1
    } else {
        0
    };
    let ghost ds = if s@.len() > 0 && s@[0] == '+' {
        s@.drop_first()
    } else {
        s@
    };
    assert(ds =~= s@.skip(start as int));
    if start >= s.len() {
        return None;
    }
    // `acc` is the value of the digits read so far, capped at 256.
    let mut acc: u32 = 0;
    let mut i: usize = start;
    assert(s@.subrange(start as int, start as int) =~= Seq::<char>::empty());
    while i < s.len()
        invariant
            start <= i <= s@.len(),
            start < s@.len(),
            ds == s@.skip(start as int),
            ds == (if s@.len() > 0 && s@[0] == '+' {
                s@.drop_first()
            } else {
                s@
            }),
            hex_value(s@.subrange(start as int, i as int)) matches Some(v) && acc == (if v < 256 {
                v
            } else {
                256
            }),
        decreases s@.len() - i,
    {
        let ghost pre = s@.subrange(start as int, i as int);
        let ghost nxt = s@.subrange(start as int, i + 1);
        assert(nxt.drop_last() =~= pre);
        assert(nxt.last() == s@[i as int]);
        match hex_digit(s[i]) {
            None => {
                proof {
                    assert(s@.skip(start as int).take(i + 1 - start) =~= nxt);
                    assert(hex_value(nxt) is None);
                    lemma_hex_value_none_extends(s@.skip(start as int), i - start);
                }
                return None;
            },
            Some(d) => {
                let t: u32 = acc * 16 + d;
                acc = if t < 256 {
                    t
                } else {
                    256
                };
            },
        }
        i = i + 1;
    }
    assert(s@.subrange(start as int, s@.len() as int) =~= ds);
    if acc < 256 {
        Some(acc as u8)
    } else {
        None
    }
}

/// A non-digit among the first `k + 1` characters makes the whole string invalid.
proof fn lemma_hex_value_none_extends(ds: Seq<char>, k: int)
    requires
        0 <= k < ds.len(),
        hex_value(ds.take(k + 1)) is None,
    ensures
        hex_value(ds) is None,
    decreases ds.len(),
{
    if k + 1 == ds.len() {
        assert(ds.take(k + 1) =~= ds);
    } else {
        assert(ds.drop_last().take(k + 1) =~= ds.take(k + 1));
        lemma_hex_value_none_extends(ds.drop_last(), k);
    }
}

// ---------------------------------------------------------------------------
// PCI addresses
// ---------------------------------------------------------------------------

/// A sysfs PCI address (`0000:65:00.0`, hex segments) names bus `bus` and device `dev`.
pub open spec fn address_matches(address: Seq<char>, bus: u8, dev: u8) -> bool {
    let parts = split_char(trim(address), ':');
    parts.len() >= 3 && {
        let devfn = parts[parts.len() - 1];
        let dev_str = split_char(devfn, '.')[0];
        hex_u8_of(parts[parts.len() - 2]) == Some(bus) && hex_u8_of(dev_str) == Some(dev)
    }
}

/// Whether a sysfs PCI address names PCI bus `bus`, device `dev`.
pub fn pci_address_matches_bus_dev(address: &str, bus: u8, dev: u8) -> (b: bool)
    ensures
        b == address_matches(address@, bus, dev),
{
    let a = chars_of(address);
    let t = trim_chars(a.as_slice());
    let parts = split_on_char(t.as_slice(), ':');
    let n = parts.len();
    if n < 3 {
        return false;
    }
    assert(views(parts@)[n - 2] == parts@[n - 2]@);
    let ad_bus = match hex_u8(parts[n - 2].as_slice()) {
        Some(v) => v,
        None => {
            return false;
        },
    };
    let devfn = &parts[n - 1];
    let pieces = split_on_char(devfn.as_slice(), '.');
    proof {
        lemma_split_nonempty(devfn@, '.');
    }
    let ad_dev = match hex_u8(pieces[0].as_slice()) {
        Some(v) => v,
        None => {
            return false;
        },
    };
    ad_bus == bus && ad_dev == dev
}

/// `split` always yields at least one piece.
pub proof fn lemma_split_nonempty(s: Seq<char>, c: char)
    ensures
        split_char(s, c).len() >= 1,
{
    crate::text::lemma_char_pos(s, c);
}

// ---------------------------------------------------------------------------
// Chip names like `nvme-pci-0100`
// ---------------------------------------------------------------------------

/// The bytes of `"nvme-pci-"`.
pub open spec fn nvme_pci_prefix() -> Seq<u8> {
    seq![110u8, 118u8, 109u8, 101u8, 45u8, 112u8, 99u8, 105u8, 45u8]
}

/// UTF-8 bytes of the lowercased chip name.
pub open spec fn lowered_bytes(chip: Seq<char>) -> Seq<u8> {
    vstd::utf8::encode_utf8(spec_to_lowercase(chip))
}

/// Byte index `k` of a valid UTF-8 string starts a character (`str::is_char_boundary`).
pub open spec fn utf8_boundary(bs: Seq<u8>, k: int) -> bool {
    k == 0 || k == bs.len() || (0 < k < bs.len() && (bs[k] < 0x80 || bs[k] >= 0xc0))
}

/// The bytes after `nvme-pci-`, if the name starts with it.
pub open spec fn nvme_rest(b: Seq<u8>) -> Option<Seq<u8>> {
    if b.len() >= 9 && b.take(9) == nvme_pci_prefix() {
        Some(b.skip(9))
    } else {
        None
    }
}

/// The byte slicing of the chip suffix stays on character boundaries: the last four
/// bytes of the suffix, and the middle of those four, start characters.
pub open spec fn chip_slicing_ok(b: Seq<u8>) -> bool {
    match nvme_rest(b) {
        None => true,
        Some(rest) => (rest.len() > 4 ==> utf8_boundary(rest, rest.len() - 4)) && (rest.len() >= 4
            ==> utf8_boundary(rest.skip(rest.len() - 4), 2)),
    }
}

/// Bytes read as characters one for one.
pub open spec fn byte_chars(bs: Seq<u8>) -> Seq<char> {
    bs.map_values(|x: u8| x as char)
}

/// PCI bus and device encoded in the last four bytes of an `nvme-pci-…` name
/// (first two hex digits = bus, next two = device).
pub open spec fn bus_dev_of(b: Seq<u8>) -> Option<(u8, u8)> {
    match nvme_rest(b) {
        None => None,
        Some(rest) => if rest.len() < 4 {
            None
        } else {
            let key = rest.skip(rest.len() - 4);
            match (hex_u8_of(byte_chars(key.take(2))), hex_u8_of(byte_chars(key.skip(2)))) {
                (Some(bus), Some(dev)) => Some((bus, dev)),
                _ => None,
            }
        },
    }
}

/// Two bytes as characters.
fn two_byte_chars(b0: u8, b1: u8) -> (r: Vec<char>)
    ensures
        r@ == seq![b0 as char, b1 as char],
{
    let mut r: Vec<char> = Vec::new();
    r.push(b0 as char);
    r.push(b1 as char);
    r
}

/// A lowercase hexadecimal digit.
pub open spec fn hex_digit_char(d: nat) -> char {
    if d < 10 {
        ((d + 48) as u32) as char
    } else {
        ((d + 87) as u32) as char
    }
}

/// A byte as two lowercase hexadecimal digits (`{:02x}`).
pub open spec fn hex2(b: u8) -> Seq<char> {
    seq![hex_digit_char((b / 16) as nat), hex_digit_char((b % 16) as nat)]
}

/// Two hexadecimal digits read back give the byte they were written from.
pub proof fn lemma_hex2_round_trip(b: u8)
    ensures
        hex_u8_of(hex2(b)) == Some(b),
{
    let hi = (b / 16) as nat;
    let lo = (b % 16) as nat;
    let h = hex2(b);
    assert(hex_digit_value(hex_digit_char(hi)) == Some(hi));
    assert(hex_digit_value(hex_digit_char(lo)) == Some(lo));
    assert(h.drop_last().drop_last() =~= Seq::<char>::empty());
    assert(h.drop_last().last() == hex_digit_char(hi));
    assert(hex_value(h.drop_last().drop_last()) == Some(0nat));
    assert(hex_value(h.drop_last()) == Some(hi));
    assert(hex_value(h) == Some(hi * 16 + lo));
}

/// Only the last four hexadecimal digits of an `nvme-pci-` name matter: whatever ASCII
/// text stands between the prefix and them, the (lowercased) name gives back the bus and
/// device they were written from, and its slicing stays on character boundaries.
pub proof fn lemma_chip_suffix_round_trip(p: Seq<char>, bus: u8, dev: u8)
    requires
        vstd::utf8::is_ascii_chars(p),
    ensures
        chip_slicing_ok(vstd::utf8::encode_utf8("nvme-pci-"@ + p + hex2(bus) + hex2(dev))),
        bus_dev_of(vstd::utf8::encode_utf8("nvme-pci-"@ + p + hex2(bus) + hex2(dev))) == Some(
            (bus, dev),
        ),
{
    reveal_strlit("nvme-pci-");
    let s = "nvme-pci-"@ + p + hex2(bus) + hex2(dev);
    let n = s.len();
    assert(vstd::utf8::is_ascii_chars(s)) by {
        assert forall|i: int| 0 <= i < s.len() implies '\0' <= #[trigger] s[i] <= '\u{7f}' by {
            if 9 <= i < 9 + p.len() {
                assert(s[i] == p[i - 9]);
            }
        }
    }
    vstd::utf8::is_ascii_chars_encode_utf8(s);
    let b = vstd::utf8::encode_utf8(s);
    assert(b.len() == n);
    assert forall|i: int| 0 <= i < n implies #[trigger] b[i] == s[i] as u8 && b[i] < 0x80 by {}
    assert(b.take(9) =~= nvme_pci_prefix());
    let rest = b.skip(9);
    assert(nvme_rest(b) == Some(rest));
    let key = rest.skip(rest.len() - 4);
    assert(byte_chars(key.take(2)) =~= hex2(bus)) by {
        assert(key.take(2)[0] == b[n - 4]);
        assert(key.take(2)[1] == b[n - 3]);
        assert(s[n - 4] == hex2(bus)[0]);
        assert(s[n - 3] == hex2(bus)[1]);
    }
    assert(byte_chars(key.skip(2)) =~= hex2(dev)) by {
        assert(key.skip(2)[0] == b[n - 2]);
        assert(key.skip(2)[1] == b[n - 1]);
        assert(s[n - 2] == hex2(dev)[0]);
        assert(s[n - 1] == hex2(dev)[1]);
    }
    lemma_hex2_round_trip(bus);
    lemma_hex2_round_trip(dev);
    assert(rest[rest.len() - 4] == b[n - 4]);
    assert(rest.skip(rest.len() - 4)[2] == b[n - 2]);
}

/// A PCI address written as `{seg}:{bus:02x}:{dev:02x}.{f}` (any segment text, a
/// function number below 8) names exactly the bus and device written into it.
pub proof fn lemma_address_round_trip(seg: Seq<char>, bus: u8, dev: u8, f: nat, b2: u8, d2: u8)
    requires
        f < 8,
    ensures
        address_matches(
            seg + seq![':'] + hex2(bus) + seq![':'] + hex2(dev) + seq!['.', hex_digit_char(f)],
            b2,
            d2,
        ) == (b2 == bus && d2 == dev),
{
    let tail = seq![':'] + hex2(bus) + seq![':'] + hex2(dev) + seq!['.', hex_digit_char(f)];
    let a = seg + tail;
    assert(seg + seq![':'] + hex2(bus) + seq![':'] + hex2(dev) + seq!['.', hex_digit_char(f)] =~= a);
    // Trimming only eats into the segment.
    assert(a[seg.len() as int] == ':');
    crate::text::lemma_lead_ws_le(a, seg.len() as int);
    let l = lead_ws(a);
    let t0 = a.skip(l as int);
    let x = seg.skip(l as int);
    assert(t0 =~= x + tail);
    assert(t0.len() > 0 && t0.last() == hex_digit_char(f));
    assert(trail_ws(t0) == 0);
    assert(trim(a) =~= t0);
    // Split at the colons.
    let rest2 = hex2(dev) + seq!['.', hex_digit_char(f)];
    assert(t0 =~= x + seq![':'] + (hex2(bus) + seq![':'] + rest2));
    crate::text::lemma_split_concat(x, ':', hex2(bus) + seq![':'] + rest2);
    crate::text::lemma_split_concat(hex2(bus), ':', rest2);
    crate::text::lemma_split_none(hex2(bus), ':');
    crate::text::lemma_split_none(rest2, ':');
    lemma_split_nonempty(x, ':');
    let parts = split_char(trim(a), ':');
    assert(parts =~= split_char(x, ':') + seq![hex2(bus)] + seq![rest2]);
    assert(parts[parts.len() - 2] == hex2(bus));
    assert(parts[parts.len() - 1] == rest2);
    assert(rest2 =~= hex2(dev) + seq!['.'] + seq![hex_digit_char(f)]);
    crate::text::lemma_split_concat(hex2(dev), '.', seq![hex_digit_char(f)]);
    crate::text::lemma_split_none(hex2(dev), '.');
    assert(split_char(rest2, '.')[0] == hex2(dev));
    lemma_hex2_round_trip(bus);
    lemma_hex2_round_trip(dev);
}

/// Whether the byte slicing of the suffix stays on character boundaries of an already
/// lowercased chip name.
pub fn lowered_chip_slicing_ok(low: &str) -> (ok: bool)
    ensures
        ok == chip_slicing_ok(vstd::utf8::encode_utf8(low@)),
{
    let b = low.as_bytes();
    if !starts_with_nvme_pci(b) {
        return true;
    }
    let n = b.len();
    let ghost rest = b@.skip(9);
    if n - 9 < 4 {
        return true;
    }
    let key_ok = {
        let x = b[n - 2];
        assert(rest.skip(rest.len() - 4)[2] == x);
        x < 0x80 || x >= 0xc0
    };
    if n - 9 > 4 {
        let x = b[n - 4];
        assert(rest[rest.len() - 4] == x);
        (x < 0x80 || x >= 0xc0) && key_ok
    } else {
        key_ok
    }
}

/// Whether the byte slicing done by `pci_bus_dev_from_nvme_chip` stays on character
/// boundaries of the lowercased chip name.
pub fn chip_slicing_ok_exec(chip: &str) -> (ok: bool)
    ensures
        ok == chip_slicing_ok(lowered_bytes(chip@)),
{
    let low = to_lowercase(chip);
    lowered_chip_slicing_ok(low.as_str())
}

fn starts_with_nvme_pci(b: &[u8]) -> (r: bool)
    ensures
        r == (nvme_rest(b@) is Some),
{
    let p: [u8; 9] = [110u8, 118u8, 109u8, 101u8, 45u8, 112u8, 99u8, 105u8, 45u8];
    assert(p@ =~= nvme_pci_prefix());
    if b.len() < 9 {
        return false;
    }
    let mut i: usize = 0;
    while i < 9
        invariant
            b@.len() >= 9,
            p@ == nvme_pci_prefix(),
            i <= 9,
            forall|j: int| 0 <= j < i ==> b@[j] == p@[j],
        decreases 9 - i,
    {
        if b[i] != p[i] {
            assert(b@.take(9)[i as int] != nvme_pci_prefix()[i as int]);
            return false;
        }
        i = i + 1;
    }
    assert(b@.take(9) =~= nvme_pci_prefix());
    true
}

/// Bus and device from an already lowercased chip name: of the last four hex digits
/// after `nvme-pci-`, the first two are the PCI bus and the next two the device.
pub fn pci_bus_dev_from_lowered_chip(low: &str) -> (r: Option<(u8, u8)>)
    requires
        chip_slicing_ok(vstd::utf8::encode_utf8(low@)),
    ensures
        r == bus_dev_of(vstd::utf8::encode_utf8(low@)),
{
    let b = low.as_bytes();
    if !starts_with_nvme_pci(b) {
        return None;
    }
    let n = b.len();
    if n - 9 < 4 {
        return None;
    }
    let ghost key = b@.skip(9).skip(n - 9 - 4);
    assert(key =~= b@.skip(n - 4));
    let hi = two_byte_chars(b[n - 4], b[n - 3]);
    let lo = two_byte_chars(b[n - 2], b[n - 1]);
    assert(byte_chars(key.take(2)) =~= hi@);
    assert(byte_chars(key.skip(2)) =~= lo@);
    match (hex_u8(hi.as_slice()), hex_u8(lo.as_slice())) {
        (Some(bus), Some(dev)) => Some((bus, dev)),
        _ => None,
    }
}

/// Parse `nvme-pci-0100` style names: of the last four hex digits, the first two are
/// the PCI bus and the next two the device (see `0000:01:00.0`). Case is ignored.
pub fn pci_bus_dev_from_nvme_chip(chip: &str) -> (r: Option<(u8, u8)>)
    requires
        chip_slicing_ok(lowered_bytes(chip@)),
    ensures
        r == bus_dev_of(lowered_bytes(chip@)),
{
    let low = to_lowercase(chip);
    pci_bus_dev_from_lowered_chip(low.as_str())
}

// ---------------------------------------------------------------------------
// sysfs lookup
// ---------------------------------------------------------------------------

/// A directory name of the form `nvme<digits>`.
pub open spec fn nvme_dir_name(name: Seq<char>) -> bool {
    match strip_prefix(name, "nvme"@) {
        Some(rest) => rest.len() > 0 && forall|i: int| 0 <= i < rest.len() ==> is_ascii_digit(
            #[trigger] rest[i],
        ),
        None => false,
    }
}

/// Walk the sysfs entries in order: skip names that are not `nvme<digits>`; an
/// unreadable `address` ends the search with nothing; on a matching address an
/// unreadable `model` ends the search with nothing, a blank model is skipped and
/// otherwise the trimmed model is the answer.
pub open spec fn sysfs_model(entries: Seq<NvmeEntry>, bus: u8, dev: u8) -> Option<Seq<char>>
    decreases entries.len(),
{
    if entries.len() == 0 {
        None
    } else {
        let e = entries[0];
        if !nvme_dir_name(e.name@) {
            sysfs_model(entries.drop_first(), bus, dev)
        } else {
            match e.address {
                None => None,
                Some(addr) => if address_matches(addr@, bus, dev) {
                    match e.model {
                        None => None,
                        Some(m) => if trim(m@).len() > 0 {
                            Some(trim(m@))
                        } else {
                            sysfs_model(entries.drop_first(), bus, dev)
                        },
                    }
                } else {
                    sysfs_model(entries.drop_first(), bus, dev)
                },
            }
        }
    }
}

/// Model of the NVMe drive behind a chip name, if sysfs names one.
pub open spec fn nvme_model_of(chip: Seq<char>, entries: Seq<NvmeEntry>) -> Option<Seq<char>> {
    match bus_dev_of(lowered_bytes(chip)) {
        None => None,
        Some(bd) => sysfs_model(entries, bd.0, bd.1),
    }
}

/// The label shown for a storage chip: the sysfs model when one is found, else the
/// chip name itself (also when the chip name cannot be sliced as the parser does).
pub open spec fn drive_label(chip: Seq<char>, entries: Seq<NvmeEntry>) -> Seq<char> {
    if !chip_slicing_ok(lowered_bytes(chip)) {
        chip
    } else {
        match nvme_model_of(chip, entries) {
            Some(m) => m,
            None => chip,
        }
    }
}

fn nvme_dir_name_exec(name: &String) -> (b: bool)
    ensures
        b == nvme_dir_name(name@),
{
    let cs = chars_of(name.as_str());
    match strip_prefix_str(cs.as_slice(), "nvme") {
        Some(rest) => rest.len() > 0 && all_ascii_digits(rest.as_slice()),
        None => false,
    }
}

/// Look up the model of the drive on PCI bus `bus`, device `dev` among sysfs entries.
pub fn sysfs_model_for(entries: &[NvmeEntry], bus: u8, dev: u8) -> (r: Option<String>)
    ensures
        r matches Some(m) ==> sysfs_model(entries@, bus, dev) == Some(m@),
        r is None ==> sysfs_model(entries@, bus, dev) is None,
{
    let mut i: usize = 0;
    assert(entries@.skip(0) =~= entries@);
    while i < entries.len()
        invariant
            i <= entries@.len(),
            sysfs_model(entries@, bus, dev) == sysfs_model(entries@.skip(i as int), bus, dev),
        decreases entries@.len() - i,
    {
        let e = &entries[i];
        assert(entries@.skip(i as int)[0] == entries@[i as int]);
        assert(entries@.skip(i as int).drop_first() =~= entries@.skip(i + 1));
        if nvme_dir_name_exec(&e.name) {
            match &e.address {
                None => {
                    return None;
                },
                Some(addr) => {
                    if pci_address_matches_bus_dev(addr.as_str(), bus, dev) {
                        match &e.model {
                            None => {
                                return None;
                            },
                            Some(m) => {
                                let mc = chars_of(m.as_str());
                                let t = trim_chars(mc.as_slice());
                                if t.len() > 0 {
                                    return Some(string_from_chars(t.as_slice()));
                                }
                            },
                        }
                    }
                },
            }
        }
        i = i + 1;
    }
    None
}

/// Model of the NVMe drive behind `chip`, looked up in the sysfs entries.
pub fn nvme_model_for_chip(chip: &str, entries: &[NvmeEntry]) -> (r: Option<String>)
    requires
        chip_slicing_ok(lowered_bytes(chip@)),
    ensures
        r matches Some(m) ==> nvme_model_of(chip@, entries@) == Some(m@),
        r is None ==> nvme_model_of(chip@, entries@) is None,
{
    match pci_bus_dev_from_nvme_chip(chip) {
        None => None,
        Some((bus, dev)) => sysfs_model_for(entries, bus, dev),
    }
}

/// Best-effort label for a storage hwmon chip (e.g. `nvme-pci-0100`): the drive model
/// from sysfs, else the chip name.
pub fn storage_drive_label(chip: &str, entries: &[NvmeEntry]) -> (r: String)
    ensures
        r@ == drive_label(chip@, entries@),
{
    if !chip_slicing_ok_exec(chip) {
        return string_from_chars(chars_of(chip).as_slice());
    }
    match nvme_model_for_chip(chip, entries) {
        Some(m) => m,
        None => string_from_chars(chars_of(chip).as_slice()),
    }
}

} // verus!
