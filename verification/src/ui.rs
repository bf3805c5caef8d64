//! Monitor state and the decisions of the terminal UI: what to do on a key press, how
//! to react to a poll, and what to draw where. The event loop and the drawing itself
//! belong to the caller.

use vstd::prelude::*;
use crate::group::{
    composite_row_title, composite_storage_row_title, group_readings, panel_views, panels_of,
    series_views, truncate_label_chars, truncated, CpuRole, DriveView, PanelKind, PanelSpec,
    PanelView, SeriesSpec, SeriesView, StorageDriveSpec, drive_views,
};
use crate::group_laws::shown_in;
use crate::history::{lemma_record_reads_back, recorded, ring_capacity, History};
use crate::layout::{
    block_inner, bordered_inner, fill_rows, layout_split, split_shape, Area, Axis,
    Sizing,
};
use crate::sensors::{series_id, stable_series_id, SensorReading};
use crate::storage_names::NvmeEntry;
use crate::text::{ascii_lower, chars_eq, chars_of, concat, eq_ignore_ascii_case, string_from_chars};

verus! {

/// Poll interval when the UI starts, in milliseconds.
pub const DEFAULT_POLL_MS: u64 = 1000;

/// Samples kept per series (also the width of the chart window).
pub const HISTORY_CAP: usize = 160;

/// Shortest poll interval reachable with the keyboard, in milliseconds.
pub const MIN_POLL_MS: u64 = 250;

/// Longest poll interval reachable with the keyboard, in milliseconds.
pub const MAX_POLL_MS: u64 = 10000;

/// Step of one key press, in milliseconds.
pub const POLL_STEP_MS: u64 = 250;

/// What a key press asks for.
#[derive(Debug, Clone, Copy, PartialEq, Eq, Structural)]
pub enum KeyCommand {
    /// `q` / `Q`: leave the UI.
    Quit,
    /// `r` / `R`: poll now.
    Refresh,
    /// `+` / `=`: poll less often.
    Slower,
    /// `-` / `_`: poll more often.
    Faster,
    /// Any other key.
    Ignore,
}

/// The command bound to a key.
pub open spec fn command_of(c: char) -> KeyCommand {
    if c == 'q' || c == 'Q' {
        KeyCommand::Quit
    } else if c == 'r' || c == 'R' {
        KeyCommand::Refresh
    } else if c == '+' || c == '=' {
        KeyCommand::Slower
    } else if c == '-' || c == '_' {
        KeyCommand::Faster
    } else {
        KeyCommand::Ignore
    }
}

/// The command bound to a key (character keys only; the caller ignores the others).
pub fn key_command(c: char) -> (k: KeyCommand)
    ensures
        k == command_of(c),
{
    if c == 'q' || c == 'Q' {
        KeyCommand::Quit
    } else if c == 'r' || c == 'R' {
        KeyCommand::Refresh
    } else if c == '+' || c == '=' {
        KeyCommand::Slower
    } else if c == '-' || c == '_' {
        KeyCommand::Faster
    } else {
        KeyCommand::Ignore
    }
}

/// Interval after `+`: 250 ms longer, at most 10 s, at least 250 ms.
pub open spec fn slower_ms(ms: int) -> int {
    let up = if ms + 250 < 10000 {
        ms + 250
    } else {
        10000
    };
    if up < 250 {
        250
    } else {
        up
    }
}

/// Interval after `-`: 250 ms shorter, at least 250 ms.
pub open spec fn faster_ms(ms: int) -> int {
    if ms - 250 > 250 {
        ms - 250
    } else {
        250
    }
}

/// Poll interval after a `+` key.
pub fn slower_poll(ms: u64) -> (r: u64)
    ensures
        r == slower_ms(ms as int),
{
    let up = ms.saturating_add(POLL_STEP_MS);
    let up = if up < MAX_POLL_MS {
        up
    } else {
        MAX_POLL_MS
    };
    if up < MIN_POLL_MS {
        MIN_POLL_MS
    } else {
        up
    }
}

/// Poll interval after a `-` key.
pub fn faster_poll(ms: u64) -> (r: u64)
    ensures
        r == faster_ms(ms as int),
{
    let down = ms.saturating_sub(POLL_STEP_MS);
    if down > MIN_POLL_MS {
        down
    } else {
        MIN_POLL_MS
    }
}

/// Poll interval after a key press.
pub open spec fn poll_after_key(ms: int, c: char) -> int {
    match command_of(c) {
        KeyCommand::Slower => slower_ms(ms),
        KeyCommand::Faster => faster_ms(ms),
        _ => ms,
    }
}

/// Poll interval after a run of key presses, first to last.
pub open spec fn poll_after_keys(ms: int, keys: Seq<char>) -> int
    decreases keys.len(),
{
    if keys.len() == 0 {
        ms
    } else {
        poll_after_key(poll_after_keys(ms, keys.drop_last()), keys.last())
    }
}

/// `+` always lands within `MIN_POLL_MS..=MAX_POLL_MS`, `-` does from within that range,
/// and away from its ends one key undoes the other.
pub proof fn lemma_poll_step_bounds(ms: int)
    requires
        0 <= ms,
    ensures
        MIN_POLL_MS <= slower_ms(ms) <= MAX_POLL_MS,
        MIN_POLL_MS <= faster_ms(ms),
        ms <= MAX_POLL_MS ==> faster_ms(ms) <= MAX_POLL_MS,
        MIN_POLL_MS <= ms <= MAX_POLL_MS - POLL_STEP_MS ==> faster_ms(slower_ms(ms)) == ms,
        MIN_POLL_MS + POLL_STEP_MS <= ms <= MAX_POLL_MS ==> slower_ms(faster_ms(ms)) == ms,
{
}

/// Whatever keys are pressed, an interval that starts within
/// `MIN_POLL_MS..=MAX_POLL_MS` (as `DEFAULT_POLL_MS` does) stays within it.
pub proof fn lemma_keys_keep_poll_in_range(ms: int, keys: Seq<char>)
    requires
        MIN_POLL_MS <= ms <= MAX_POLL_MS,
    ensures
        MIN_POLL_MS <= poll_after_keys(ms, keys) <= MAX_POLL_MS,
    decreases keys.len(),
{
    if keys.len() > 0 {
        lemma_keys_keep_poll_in_range(ms, keys.drop_last());
        lemma_poll_step_bounds(poll_after_keys(ms, keys.drop_last()));
    }
}

/// A poll is due once the time since the last one (in microseconds) reaches the
/// interval (in milliseconds).
pub open spec fn poll_is_due(elapsed_us: u64, poll_ms: u64) -> bool {
    elapsed_us >= poll_ms * 1000
}

/// Whether the next poll is due.
pub fn poll_due(elapsed_us: u64, poll_ms: u64) -> (b: bool)
    ensures
        b == poll_is_due(elapsed_us, poll_ms),
{
    match poll_ms.checked_mul(1000) {
        Some(t) => elapsed_us >= t,
        None => false,
    }
}

/// How long to wait for a key, in microseconds: 50 ms, or less when the next poll is
/// sooner (nothing once it is due).
pub open spec fn key_wait(elapsed_us: u64, poll_ms: u64) -> int {
    let left: int = if poll_ms * 1000 >= elapsed_us {
        poll_ms * 1000 - elapsed_us
    } else {
        0
    };
    if left < 50000 {
        left
    } else {
        50000
    }
}

/// How long to wait for a key before looking at the clock again.
pub fn key_wait_us(elapsed_us: u64, poll_ms: u64) -> (r: u64)
    ensures
        r == key_wait(elapsed_us, poll_ms),
{
    let t: u128 = (poll_ms as u128) * 1000;
    let e: u128 = elapsed_us as u128;
    let left: u128 = if t >= e {
        t - e
    } else {
        0
    };
    if left < 50000 {
        left as u64
    } else {
        50000
    }
}

/// What the UI shows and remembers between frames.
pub struct Monitor<N> {
    pub history: History<N>,
    pub panels: Vec<PanelSpec<N>>,
    /// Message of the last failed poll, cleared by the next successful one.
    pub last_error: Option<String>,
    /// Poll interval in milliseconds.
    pub poll_ms: u64,
    /// CPU model name for the CPU panel title.
    pub cpu_model: Option<String>,
}

impl<N> Monitor<N> {
    /// Every series shown in a panel has a history buffer.
    pub open spec fn panels_have_history(&self) -> bool {
        forall|p: int, s: int|
            0 <= p < self.panels@.len() && 0 <= s < self.panels@[p].series@.len() ==> self.history.series().contains_key(
                #[trigger] self.panels@[p].series@[s].id@,
            )
    }

    /// Fresh state: empty history of `HISTORY_CAP` samples, no panels, 1 s poll interval.
    pub fn new() -> (m: Self)
        ensures
            m.history.series() == Map::<Seq<char>, Seq<N>>::empty(),
            m.history.capacity() == HISTORY_CAP,
            m.panels@.len() == 0,
            m.last_error is None,
            m.poll_ms == DEFAULT_POLL_MS,
            m.cpu_model is None,
    {
        Monitor {
            history: History::new(HISTORY_CAP),
            panels: Vec::new(),
            last_error: None,
            poll_ms: DEFAULT_POLL_MS,
            cpu_model: None,
        }
    }

    /// A key press: adjusts the poll interval for `+`/`-` and tells the caller what to do.
    pub fn handle_key(&mut self, c: char) -> (k: KeyCommand)
        ensures
            k == command_of(c),
            final(self).poll_ms == poll_after_key(old(self).poll_ms as int, c),
            final(self).history == old(self).history,
            final(self).panels == old(self).panels,
            final(self).last_error == old(self).last_error,
            final(self).cpu_model == old(self).cpu_model,
    {
        let k = key_command(c);
        match k {
            KeyCommand::Slower => {
                self.poll_ms = slower_poll(self.poll_ms);
            },
            KeyCommand::Faster => {
                self.poll_ms = faster_poll(self.poll_ms);
            },
            _ => {},
        }
        k
    }

    /// A failed poll: remember its message.
    pub fn poll_failed(&mut self, message: String)
        ensures
            final(self).last_error == Some(message),
            final(self).history == old(self).history,
            final(self).panels == old(self).panels,
            final(self).poll_ms == old(self).poll_ms,
            final(self).cpu_model == old(self).cpu_model,
    {
        self.last_error = Some(message);
    }
}

impl<N: Copy> Monitor<N> {
    /// A successful poll: clear the error, then apply the readings.
    pub fn poll_succeeded(
        &mut self,
        readings: &[SensorReading<N>],
        cpu_model: Option<String>,
        nvme_entries: &[NvmeEntry],
    )
        ensures
            final(self).last_error is None,
            final(self).poll_ms == old(self).poll_ms,
            final(self).cpu_model == (if cpu_model is Some {
                cpu_model
            } else {
                old(self).cpu_model
            }),
            panel_views(final(self).panels@) == panels_of(readings@, nvme_entries@),
            final(self).panels_have_history(),
            final(self).history.capacity() == old(self).history.capacity(),
            forall|k: Seq<char>|
                #[trigger] final(self).history.series().contains_key(k) <==> (record_all(
                    old(self).history.series(),
                    readings@,
                    ring_capacity(old(self).history.capacity()),
                ).contains_key(k) || shown_in(panel_views(final(self).panels@), k)),
            forall|k: Seq<char>|
                #[trigger] record_all(
                    old(self).history.series(),
                    readings@,
                    ring_capacity(old(self).history.capacity()),
                ).contains_key(k) ==> final(self).history.series()[k] == record_all(
                    old(self).history.series(),
                    readings@,
                    ring_capacity(old(self).history.capacity()),
                )[k],
            forall|k: Seq<char>|
                #[trigger] final(self).history.series().contains_key(k) && !record_all(
                    old(self).history.series(),
                    readings@,
                    ring_capacity(old(self).history.capacity()),
                ).contains_key(k) ==> final(self).history.series()[k] == Seq::<N>::empty(),
            forall|i: int|
                0 <= i < readings@.len() ==> final(self).history.series().contains_key(
                    #[trigger] series_id(readings@[i].chip@, readings@[i].label@),
                ),
    {
        self.last_error = None;
        self.apply_readings(readings, cpu_model, nvme_entries);
    }

    /// Record samples first, then rebuild panels, then make sure every series id has a
    /// buffer so the next frame never reads a missing history key.
    pub fn apply_readings(
        &mut self,
        readings: &[SensorReading<N>],
        cpu_model: Option<String>,
        nvme_entries: &[NvmeEntry],
    )
        ensures
            final(self).last_error == old(self).last_error,
            final(self).poll_ms == old(self).poll_ms,
            final(self).cpu_model == (if cpu_model is Some {
                cpu_model
            } else {
                old(self).cpu_model
            }),
            panel_views(final(self).panels@) == panels_of(readings@, nvme_entries@),
            final(self).panels_have_history(),
            final(self).history.capacity() == old(self).history.capacity(),
            forall|k: Seq<char>|
                #[trigger] final(self).history.series().contains_key(k) <==> (record_all(
                    old(self).history.series(),
                    readings@,
                    ring_capacity(old(self).history.capacity()),
                ).contains_key(k) || shown_in(panel_views(final(self).panels@), k)),
            forall|k: Seq<char>|
                #[trigger] record_all(
                    old(self).history.series(),
                    readings@,
                    ring_capacity(old(self).history.capacity()),
                ).contains_key(k) ==> final(self).history.series()[k] == record_all(
                    old(self).history.series(),
                    readings@,
                    ring_capacity(old(self).history.capacity()),
                )[k],
            forall|k: Seq<char>|
                #[trigger] final(self).history.series().contains_key(k) && !record_all(
                    old(self).history.series(),
                    readings@,
                    ring_capacity(old(self).history.capacity()),
                ).contains_key(k) ==> final(self).history.series()[k] == Seq::<N>::empty(),
            forall|i: int|
                0 <= i < readings@.len() ==> final(self).history.series().contains_key(
                    #[trigger] series_id(readings@[i].chip@, readings@[i].label@),
                ),
    {
        let ghost le = self.last_error;
        let ghost pm = self.poll_ms;
        let ghost cap = ring_capacity(old(self).history.capacity());
        let ghost start = old(self).history.series();
        let mut i: usize = 0;
        assert(readings@.take(0) =~= Seq::<SensorReading<N>>::empty());
        while i < readings.len()
            invariant
                self.last_error == le,
                self.poll_ms == pm,
                self.cpu_model == old(self).cpu_model,
                i <= readings@.len(),
                self.history.capacity() == old(self).history.capacity(),
                cap == ring_capacity(old(self).history.capacity()),
                start == old(self).history.series(),
                self.history.series() == record_all(start, readings@.take(i as int), cap),
                forall|j: int|
                    0 <= j < i ==> self.history.series().contains_key(
                        #[trigger] series_id(readings@[j].chip@, readings@[j].label@),
                    ),
            decreases readings@.len() - i,
        {
            let id = stable_series_id(&readings[i]);
            self.history.record(id.as_str(), readings[i].value_c);
            assert(readings@.take(i + 1).drop_last() =~= readings@.take(i as int));
            i = i + 1;
        }
        assert(readings@.take(i as int) =~= readings@);
        let ghost rec = record_all(start, readings@, cap);
        if let Some(m) = cpu_model {
            self.cpu_model = Some(m);
        }
        self.panels = group_readings(readings, nvme_entries);
        let ghost pv = panel_views(self.panels@);
        let mut p: usize = 0;
        while p < self.panels.len()
            invariant
                self.last_error == le,
                self.poll_ms == pm,
                self.cpu_model == (if cpu_model is Some {
                    cpu_model
                } else {
                    old(self).cpu_model
                }),
                p <= self.panels@.len(),
                self.history.capacity() == old(self).history.capacity(),
                pv == panel_views(self.panels@),
                panel_views(self.panels@) == panels_of(readings@, nvme_entries@),
                forall|k: Seq<char>|
                    #[trigger] rec.contains_key(k) ==> self.history.series().contains_key(k)
                        && self.history.series()[k] == rec[k],
                forall|k: Seq<char>|
                    #[trigger] self.history.series().contains_key(k) && !rec.contains_key(k)
                        ==> self.history.series()[k] == Seq::<N>::empty() && shown_in(pv, k),
                forall|q: int, s: int|
                    0 <= q < p && 0 <= s < self.panels@[q].series@.len() ==> self.history.series().contains_key(
                        #[trigger] self.panels@[q].series@[s].id@,
                    ),
                forall|j: int|
                    0 <= j < readings@.len() ==> self.history.series().contains_key(
                        #[trigger] series_id(readings@[j].chip@, readings@[j].label@),
                    ),
            decreases self.panels@.len() - p,
        {
            let mut s: usize = 0;
            while s < self.panels[p].series.len()
                invariant
                    self.last_error == le,
                    self.poll_ms == pm,
                    self.cpu_model == (if cpu_model is Some {
                        cpu_model
                    } else {
                        old(self).cpu_model
                    }),
                    p < self.panels@.len(),
                    s <= self.panels@[p as int].series@.len(),
                        self.history.capacity() == old(self).history.capacity(),
                    pv == panel_views(self.panels@),
                    panel_views(self.panels@) == panels_of(readings@, nvme_entries@),
                    forall|k: Seq<char>|
                        #[trigger] rec.contains_key(k) ==> self.history.series().contains_key(k)
                            && self.history.series()[k] == rec[k],
                    forall|k: Seq<char>|
                        #[trigger] self.history.series().contains_key(k) && !rec.contains_key(k)
                            ==> self.history.series()[k] == Seq::<N>::empty() && shown_in(pv, k),
                    forall|q: int, t: int|
                        0 <= q < p && 0 <= t < self.panels@[q].series@.len() ==> self.history.series().contains_key(
                            #[trigger] self.panels@[q].series@[t].id@,
                        ),
                    forall|t: int|
                        0 <= t < s ==> self.history.series().contains_key(
                            #[trigger] self.panels@[p as int].series@[t].id@,
                        ),
                    forall|j: int|
                        0 <= j < readings@.len() ==> self.history.series().contains_key(
                            #[trigger] series_id(readings@[j].chip@, readings@[j].label@),
                        ),
                decreases self.panels@[p as int].series@.len() - s,
            {
                let ghost sid = self.panels@[p as int].series@[s as int].id@;
                proof {
                    assert(pv[p as int].series[s as int].id == sid);
                    assert(shown_in(pv, sid));
                }
                self.history.ensure_series(self.panels[p].series[s].id.as_str());
                s = s + 1;
            }
            p = p + 1;
        }
        proof {
            assert forall|k: Seq<char>| #[trigger]
                self.history.series().contains_key(k) <== (rec.contains_key(k) || shown_in(pv, k)) by {
                if shown_in(pv, k) && !rec.contains_key(k) {
                    let (q, t) = choose|q: int, t: int|
                        0 <= q < pv.len() && 0 <= t < pv[q].series.len() && #[trigger] pv[q].series[t].id == k;
                    assert(self.panels@[q].series@[t].id@ == k);
                }
            }
        }
    }
}

/// The series after recording every reading in order, each under its id.
pub open spec fn record_all<N>(m: Map<Seq<char>, Seq<N>>, rs: Seq<SensorReading<N>>, cap: nat) -> Map<
    Seq<char>,
    Seq<N>,
>
    decreases rs.len(),
{
    if rs.len() == 0 {
        m
    } else {
        recorded(
            record_all(m, rs.drop_last(), cap),
            series_id(rs.last().chip@, rs.last().label@),
            rs.last().value_c,
            cap,
        )
    }
}

/// Read-after-write over a poll: the newest sample of a series is the value of the last
/// reading with its id.
pub proof fn lemma_poll_keeps_newest_value<N>(
    m: Map<Seq<char>, Seq<N>>,
    rs: Seq<SensorReading<N>>,
    cap: nat,
    i: int,
)
    requires
        cap >= 1,
        0 <= i < rs.len(),
        forall|j: int|
            i < j < rs.len() ==> #[trigger] series_id(rs[j].chip@, rs[j].label@) != series_id(
                rs[i].chip@,
                rs[i].label@,
            ),
    ensures
        record_all(m, rs, cap).contains_key(series_id(rs[i].chip@, rs[i].label@)),
        record_all(m, rs, cap)[series_id(rs[i].chip@, rs[i].label@)].last() == rs[i].value_c,
    decreases rs.len(),
{
    let id = series_id(rs[i].chip@, rs[i].label@);
    let last = rs.last();
    let prev = record_all(m, rs.drop_last(), cap);
    if i == rs.len() - 1 {
        lemma_record_reads_back(prev, id, last.value_c, cap, id);
    } else {
        let j = rs.len() - 1;
        assert(series_id(rs[j].chip@, rs[j].label@) != id);
        assert(rs.drop_last()[i] == rs[i]);
        assert forall|k: int| i < k < rs.drop_last().len() implies #[trigger] series_id(
            rs.drop_last()[k].chip@,
            rs.drop_last()[k].label@,
        ) != series_id(rs.drop_last()[i].chip@, rs.drop_last()[i].label@) by {
            assert(rs.drop_last()[k] == rs[k]);
            assert(series_id(rs[k].chip@, rs[k].label@) != id);
        }
        lemma_poll_keeps_newest_value(m, rs.drop_last(), cap, i);
        lemma_record_reads_back(prev, series_id(last.chip@, last.label@), last.value_c, cap, id);
    }
}

// ---------------------------------------------------------------------------
// Text pieces
// ---------------------------------------------------------------------------

/// Truncate to `max_chars` characters, marking a cut with `…`.
pub fn truncate(s: &str, max_chars: usize) -> (r: String)
    ensures
        r@ == truncated(s@, max_chars as nat),
{
    truncate_label_chars(s, max_chars)
}

/// Character of a decimal digit.
pub open spec fn digit_char(d: nat) -> char {
    ((d + 48) as u32) as char
}

/// Decimal representation of `n`.
pub open spec fn decimal(n: nat) -> Seq<char>
    decreases n,
{
    if n < 10 {
        seq![digit_char(n)]
    } else {
        decimal(n / 10).push(digit_char(n % 10))
    }
}

fn digit(d: u64) -> (c: char)
    requires
        d < 10,
    ensures
        c == digit_char(d as nat),
{
    let b: u8 = (d as u8) + 48;
    b as char
}

/// Decimal digits of `n` (`u64` as `Display` writes it).
pub fn decimal_chars(n: u64) -> (r: Vec<char>)
    ensures
        r@ == decimal(n as nat),
    decreases n,
{
    if n < 10 {
        let mut v: Vec<char> = Vec::new();
        v.push(digit(n));
        assert(v@ =~= seq![digit_char(n as nat)]);
        v
    } else {
        let mut v = decimal_chars(n / 10);
        v.push(digit(n % 10));
        v
    }
}

fn join3(a: &[char], b: &[char], c: &[char]) -> (r: Vec<char>)
    ensures
        r@ == a@ + b@ + c@,
{
    let ab = concat(a, b);
    concat(ab.as_slice(), c)
}

/// Footer line: key help and the poll interval, below the last error if any.
pub open spec fn footer_text(poll_ms: u64, last_error: Option<Seq<char>>) -> Seq<char> {
    let base = " q quit | r refresh | +/- interval ("@ + decimal(poll_ms as nat) + "ms) "@;
    match last_error {
        Some(e) => e + "\n"@ + base,
        None => base,
    }
}

/// Text shown when there are no panels.
pub open spec fn empty_message(last_error: Option<Seq<char>>) -> Seq<char> {
    match last_error {
        Some(e) => "btemp — no sensor data\n\n"@ + e
            + "\n\nInstall lm-sensors, run sensors-detect, and ensure `sensors` is on PATH."@,
        None => "btemp — no temperature sensors found."@,
    }
}

/// Title of a panel's border: the CPU panel names the CPU model (cut to 56 characters).
pub open spec fn panel_title_text(kind: PanelKind, title: Seq<char>, cpu_model: Option<Seq<char>>) -> Seq<char> {
    if kind == PanelKind::Cpu {
        match cpu_model {
            Some(m) => " "@ + title + " — "@ + truncated(m, 56) + " "@,
            None => " "@ + title + " (CPU) "@,
        }
    } else {
        " "@ + title + " "@
    }
}

/// An optional string seen as characters.
pub open spec fn opt_chars(s: Option<String>) -> Option<Seq<char>> {
    match s {
        Some(x) => Some(x@),
        None => None,
    }
}

fn footer_text_exec(poll_ms: u64, last_error: &Option<String>) -> (r: String)
    ensures
        r@ == footer_text(poll_ms, opt_chars(*last_error)),
{
    let d = decimal_chars(poll_ms);
    let base = join3(chars_of(" q quit | r refresh | +/- interval (").as_slice(), d.as_slice(), chars_of("ms) ").as_slice());
    match last_error {
        Some(e) => string_from_chars(join3(chars_of(e.as_str()).as_slice(), chars_of("\n").as_slice(), base.as_slice()).as_slice()),
        None => string_from_chars(base.as_slice()),
    }
}

fn empty_message_exec(last_error: &Option<String>) -> (r: String)
    ensures
        r@ == empty_message(opt_chars(*last_error)),
{
    match last_error {
        Some(e) => string_from_chars(
            join3(
                chars_of("btemp — no sensor data\n\n").as_slice(),
                chars_of(e.as_str()).as_slice(),
                chars_of("\n\nInstall lm-sensors, run sensors-detect, and ensure `sensors` is on PATH.").as_slice(),
            ).as_slice(),
        ),
        None => string_from_chars(chars_of("btemp — no temperature sensors found.").as_slice()),
    }
}

/// Title of a panel's border.
pub fn panel_block_title(kind: PanelKind, title: &str, cpu_model: &Option<String>) -> (r: String)
    ensures
        r@ == panel_title_text(kind, title@, opt_chars(*cpu_model)),
{
    let sp = chars_of(" ");
    let t = chars_of(title);
    if kind == PanelKind::Cpu {
        match cpu_model {
            Some(m) => {
                let short = truncate(m.as_str(), 56);
                let a = join3(sp.as_slice(), t.as_slice(), chars_of(" — ").as_slice());
                let b = join3(a.as_slice(), chars_of(short.as_str()).as_slice(), sp.as_slice());
                string_from_chars(b.as_slice())
            },
            None => string_from_chars(join3(sp.as_slice(), t.as_slice(), chars_of(" (CPU) ").as_slice()).as_slice()),
        }
    } else {
        string_from_chars(join3(sp.as_slice(), t.as_slice(), sp.as_slice()).as_slice())
    }
}

// ---------------------------------------------------------------------------
// Rows of a graph
// ---------------------------------------------------------------------------

/// How a graph row is labelled.
#[derive(Debug, Clone, Copy, PartialEq, Eq, Structural)]
pub enum RowLabel {
    /// CPU, motherboard, flat storage list, etc.
    Normal,
    /// Drive title is above; left column composite.
    StorageComposite,
    /// Drive title is above; sensor name only + temp.
    StorageAux,
}

/// Share of the row width given to the label, in percent.
pub open spec fn label_pct(kind: RowLabel) -> int {
    match kind {
        RowLabel::StorageComposite => 30,
        RowLabel::StorageAux => 28,
        RowLabel::Normal => 32,
    }
}

/// Width of the label column: a share of the row (at least 11), at most the row less 4
/// cells (but at least 11), and between 11 and 26 cells.
pub open spec fn label_width(area_w: u16, kind: RowLabel) -> int {
    let prod = if area_w * label_pct(kind) <= u16::MAX {
        area_w * label_pct(kind)
    } else {
        u16::MAX as int
    };
    let w = if prod / 100 >= 11 {
        prod / 100
    } else {
        11
    };
    let cap = if area_w >= 4 && area_w - 4 >= 11 {
        area_w - 4
    } else {
        11
    };
    let a = if w <= cap {
        w
    } else {
        cap
    };
    let b = if a <= 26 {
        a
    } else {
        26
    };
    if b >= 11 {
        b
    } else {
        11
    }
}

/// Wider label column so text + `°C` is not clipped; the chart gets the remainder.
pub fn label_column_width(area_w: u16, kind: RowLabel) -> (w: u16)
    ensures
        w == label_width(area_w, kind),
        11 <= w <= 26,
{
    let pct: u16 = match kind {
        RowLabel::StorageComposite => 30,
        RowLabel::StorageAux => 28,
        RowLabel::Normal => 32,
    };
    let wide: u32 = (area_w as u32) * (pct as u32);
    let prod: u16 = if wide <= 65535 {
        wide as u16
    } else {
        65535
    };
    let w = if prod / 100 >= 11 {
        prod / 100
    } else {
        11
    };
    let cap = area_w.saturating_sub(4);
    let cap = if cap >= 11 {
        cap
    } else {
        11
    };
    let a = if w <= cap {
        w
    } else {
        cap
    };
    let b = if a <= 26 {
        a
    } else {
        26
    };
    if b >= 11 {
        b
    } else {
        11
    }
}

/// Text of a row label before the temperature: storage rows show the composite title or
/// the sensor label; other rows show the display name, and the label after a `·` when
/// it differs and is not `composite`.
pub open spec fn row_prefix<N>(kind: RowLabel, s: SeriesView<N>) -> Seq<char> {
    match kind {
        RowLabel::StorageComposite => composite_row_title(s.label),
        RowLabel::StorageAux => truncated(s.label, 18),
        RowLabel::Normal => if s.display_name != s.label && ascii_lower(s.label) != ascii_lower(
            "composite"@,
        ) {
            truncated(s.display_name, 22) + " · "@ + truncated(s.label, 14)
        } else {
            truncated(s.display_name, 26)
        },
    }
}

/// Text of a row label before the temperature.
pub fn row_label_prefix<N>(kind: RowLabel, s: &SeriesSpec<N>) -> (r: String)
    ensures
        r@ == row_prefix(kind, s@),
{
    match kind {
        RowLabel::StorageComposite => composite_storage_row_title(s.label.as_str()),
        RowLabel::StorageAux => truncate(s.label.as_str(), 18),
        RowLabel::Normal => {
            let dn = chars_of(s.display_name.as_str());
            let lb = chars_of(s.label.as_str());
            let c = chars_of("composite");
            if !chars_eq(dn.as_slice(), lb.as_slice()) && !eq_ignore_ascii_case(
                lb.as_slice(),
                c.as_slice(),
            ) {
                let a = truncate(s.display_name.as_str(), 22);
                let b = truncate(s.label.as_str(), 14);
                let t = join3(chars_of(a.as_str()).as_slice(), chars_of(" · ").as_slice(), chars_of(b.as_str()).as_slice());
                string_from_chars(t.as_slice())
            } else {
                truncate(s.display_name.as_str(), 26)
            }
        },
    }
}

/// One drawing step, in the order the steps are to be drawn.
#[derive(Debug)]
pub enum DrawCmd {
    /// A bordered box titled ` btemp ` holding a message.
    Message { area: Area, text: String },
    /// A panel border with a title.
    Frame { area: Area, title: String },
    /// Bold text (a drive's name).
    Heading { area: Area, text: String },
    /// Bold row label: `prefix`, a space, and the newest temperature of the series.
    RowLabel { area: Area, prefix: String, series_id: String },
    /// Braille graph of the series' history.
    Chart { area: Area, series_id: String },
    /// Dim footer text.
    Footer { area: Area, text: String },
}

/// A drawing step in specifications.
pub enum CmdView {
    Message(Area, Seq<char>),
    Frame(Area, Seq<char>),
    Heading(Area, Seq<char>),
    RowLabel(Area, Seq<char>, Seq<char>),
    Chart(Area, Seq<char>),
    Footer(Area, Seq<char>),
}

impl View for DrawCmd {
    type V = CmdView;

    open spec fn view(&self) -> CmdView {
        match self {
            DrawCmd::Message { area, text } => CmdView::Message(*area, text@),
            DrawCmd::Frame { area, title } => CmdView::Frame(*area, title@),
            DrawCmd::Heading { area, text } => CmdView::Heading(*area, text@),
            DrawCmd::RowLabel { area, prefix, series_id } => CmdView::RowLabel(
                *area,
                prefix@,
                series_id@,
            ),
            DrawCmd::Chart { area, series_id } => CmdView::Chart(*area, series_id@),
            DrawCmd::Footer { area, text } => CmdView::Footer(*area, text@),
        }
    }
}

/// Drawing steps seen through `view`.
pub open spec fn cmd_views(s: Seq<DrawCmd>) -> Seq<CmdView> {
    s.map_values(|c: DrawCmd| c@)
}

/// A labelled graph row: nothing when narrower than 6 cells or flat (or when the label
/// column would end past the last `u16` column, where the position overflows);
/// otherwise the label on the left and the graph in the rest (at least 1 cell).
pub open spec fn row_cmds<N>(area: Area, s: SeriesView<N>, kind: RowLabel) -> Seq<CmdView> {
    if area.width < 6 || area.height == 0 {
        seq![]
    } else {
        let w = label_width(area.width, kind);
        if area.x + w > u16::MAX {
            seq![]
        } else {
            let label_area = Area { x: area.x, y: area.y, width: w as u16, height: area.height };
            let chart_area = Area {
                x: (area.x + w) as u16,
                y: area.y,
                width: if area.width - w >= 1 {
                    (area.width - w) as u16
                } else {
                    1
                },
                height: area.height,
            };
            seq![CmdView::RowLabel(label_area, row_prefix(kind, s), s.id), CmdView::Chart(chart_area, s.id)]
        }
    }
}

fn push_cmd(out: &mut Vec<DrawCmd>, c: DrawCmd)
    ensures
        cmd_views(final(out)@) == cmd_views(old(out)@).push(c@),
{
    out.push(c);
    assert(cmd_views(out@) =~= cmd_views(old(out)@).push(c@));
}

/// Plan one labelled graph row.
pub fn plan_labeled_row<N>(out: &mut Vec<DrawCmd>, area: Area, spec: &SeriesSpec<N>, kind: RowLabel)
    ensures
        cmd_views(final(out)@) == cmd_views(old(out)@) + row_cmds(area, spec@, kind),
{
    if area.width < 6 || area.height == 0 {
        assert(cmd_views(out@) =~= cmd_views(out@) + Seq::<CmdView>::empty());
        return;
    }
    let label_w = label_column_width(area.width, kind);
    let x2 = match area.x.checked_add(label_w) {
        Some(v) => v,
        None => {
            assert(cmd_views(out@) =~= cmd_views(out@) + Seq::<CmdView>::empty());
            return;
        },
    };
    let label_area = Area { x: area.x, y: area.y, width: label_w, height: area.height };
    let rest = area.width.saturating_sub(label_w);
    let chart_area = Area {
        x: x2,
        y: area.y,
        width: if rest >= 1 {
            rest
        } else {
            1
        },
        height: area.height,
    };
    let ghost before = cmd_views(out@);
    let prefix = row_label_prefix(kind, spec);
    push_cmd(out, DrawCmd::RowLabel { area: label_area, prefix, series_id: spec.id.clone() });
    push_cmd(out, DrawCmd::Chart { area: chart_area, series_id: spec.id.clone() });
    assert(cmd_views(out@) =~= before + row_cmds(area, spec@, kind));
}

/// Rows pairing areas with series, as far as both last.
pub open spec fn rows_cmds<N>(areas: Seq<Area>, ss: Seq<SeriesView<N>>, kind: RowLabel, i: int) -> Seq<CmdView>
    decreases ss.len() - i,
{
    if i < 0 || i >= areas.len() || i >= ss.len() {
        seq![]
    } else {
        row_cmds(areas[i], ss[i], kind) + rows_cmds(areas, ss, kind, i + 1)
    }
}

/// Plan labelled rows, the `i`-th series in the `i`-th area, as far as both last.
pub fn plan_rows<N>(out: &mut Vec<DrawCmd>, areas: &Vec<Area>, ss: &[SeriesSpec<N>], kind: RowLabel)
    ensures
        cmd_views(final(out)@) == cmd_views(old(out)@) + rows_cmds(areas@, series_views(ss@), kind, 0),
{
    let ghost sv = series_views(ss@);
    let mut i: usize = 0;
    assert(cmd_views(out@) + rows_cmds(areas@, sv, kind, 0) =~= cmd_views(old(out)@) + rows_cmds(areas@, sv, kind, 0));
    while i < areas.len() && i < ss.len()
        invariant
            sv == series_views(ss@),
            i <= ss@.len(),
            cmd_views(old(out)@) + rows_cmds(areas@, sv, kind, 0) == cmd_views(out@) + rows_cmds(areas@, sv, kind, i as int),
        decreases ss@.len() - i,
    {
        let ghost before = cmd_views(out@);
        plan_labeled_row(out, areas[i], &ss[i], kind);
        assert(before + rows_cmds(areas@, sv, kind, i as int) =~= cmd_views(out@) + rows_cmds(areas@, sv, kind, i + 1));
        i = i + 1;
    }
    assert(rows_cmds(areas@, sv, kind, i as int) =~= Seq::<CmdView>::empty());
    assert(cmd_views(out@) + Seq::<CmdView>::empty() =~= cmd_views(out@));
}

/// Width of each slot when a row is split evenly between `n` graphs (at least 1).
pub open spec fn slot_width(area: Area, n: int) -> int {
    if (area.width as int) / n >= 1 {
        (area.width as int) / n
    } else {
        1
    }
}

/// The `i`-th slot of a row split evenly between `n` graphs, one cell narrower than
/// its share so neighbours do not touch (`None` where its left edge would pass the last
/// `u16` column, where the position overflows).
pub open spec fn composite_slot(area: Area, n: int, i: int) -> Option<Area> {
    let w = slot_width(area, n);
    if area.x + i * w > u16::MAX {
        None
    } else {
        Some(
            Area {
                x: (area.x + i * w) as u16,
                y: area.y,
                width: (w - 1) as u16,
                height: area.height,
            },
        )
    }
}

/// Graphs side by side, from index `i` on.
pub open spec fn composite_cmds<N>(area: Area, cs: Seq<SeriesView<N>>, i: int) -> Seq<CmdView>
    decreases cs.len() - i,
{
    if i < 0 || i >= cs.len() {
        seq![]
    } else {
        let n = if cs.len() >= 1 {
            cs.len() as int
        } else {
            1
        };
        let here = match composite_slot(area, n, i) {
            Some(sub) => row_cmds(sub, cs[i], RowLabel::Normal),
            None => seq![],
        };
        here + composite_cmds(area, cs, i + 1)
    }
}

/// The composite CPU graphs of a panel side by side (nothing when narrower than 4 cells).
pub open spec fn composite_row_cmds<N>(area: Area, cs: Seq<SeriesView<N>>) -> Seq<CmdView> {
    if area.width < 4 {
        seq![]
    } else {
        composite_cmds(area, cs, 0)
    }
}

proof fn lemma_offset_bound(i: int, w: int)
    by (nonlinear_arith)
    requires
        0 <= i <= 65535,
        0 <= w <= 65535,
    ensures
        0 <= i * w <= 65535 * 65535,
{
}

proof fn lemma_composite_cmds_contain<N>(area: Area, cs: Seq<SeriesView<N>>, j: int, i: int, x: CmdView, y: CmdView)
    requires
        0 <= j <= i < cs.len(),
        (match composite_slot(area, cs.len() as int, i) {
            Some(sub) => row_cmds(sub, cs[i], RowLabel::Normal),
            None => seq![],
        }) == seq![x, y],
    ensures
        composite_cmds(area, cs, j).contains(x),
        composite_cmds(area, cs, j).contains(y),
    decreases i - j,
{
    let here = match composite_slot(area, cs.len() as int, j) {
        Some(sub) => row_cmds(sub, cs[j], RowLabel::Normal),
        None => seq![],
    };
    let tail = composite_cmds(area, cs, j + 1);
    assert(composite_cmds(area, cs, j) == here + tail);
    if j == i {
        assert((here + tail)[0] == x);
        assert((here + tail)[1] == y);
    } else {
        lemma_composite_cmds_contain(area, cs, j + 1, i, x, y);
        let a = choose|a: int| 0 <= a < tail.len() && tail[a] == x;
        let b = choose|b: int| 0 <= b < tail.len() && tail[b] == y;
        assert((here + tail)[here.len() + a] == x);
        assert((here + tail)[here.len() + b] == y);
    }
}

/// Composite graphs of a row sit side by side: in a row at least 4 cells wide split
/// evenly among `n` graphs with slot width `w = max(width / n, 1)`, graph `i` has its
/// label at `x = area.x + i * w` on the row's line (as wide as a label of a `w - 1` cell
/// row) and its chart right after it, whenever the slot is wide enough to draw; so two
/// distinct graphs never share a position.
pub proof fn lemma_composite_positions<N>(area: Area, cs: Seq<SeriesView<N>>, i: int)
    requires
        area.width >= 4,
        area.height > 0,
        0 <= i < cs.len(),
        ({
            let w = if (area.width as int) / (cs.len() as int) >= 1 {
                (area.width as int) / (cs.len() as int)
            } else {
                1
            };
            w - 1 >= 6 && area.x + i * w + label_width((w - 1) as u16, RowLabel::Normal) <= u16::MAX
        }),
    ensures
        ({
            let w = if (area.width as int) / (cs.len() as int) >= 1 {
                (area.width as int) / (cs.len() as int)
            } else {
                1
            };
            let lw = label_width((w - 1) as u16, RowLabel::Normal);
            &&& composite_row_cmds(area, cs).contains(
                CmdView::RowLabel(
                    Area { x: (area.x + i * w) as u16, y: area.y, width: lw as u16, height: area.height },
                    row_prefix(RowLabel::Normal, cs[i]),
                    cs[i].id,
                ),
            )
            &&& composite_row_cmds(area, cs).contains(
                CmdView::Chart(
                    Area {
                        x: (area.x + i * w + lw) as u16,
                        y: area.y,
                        width: (if w - 1 - lw >= 1 {
                            w - 1 - lw
                        } else {
                            1
                        }) as u16,
                        height: area.height,
                    },
                    cs[i].id,
                ),
            )
        }),
{
    let n = cs.len() as int;
    let w = slot_width(area, n);
    let lw = label_width((w - 1) as u16, RowLabel::Normal);
    assert(0 <= i * w) by (nonlinear_arith)
        requires
            0 <= i,
            1 <= w,
    ;
    let sub = Area { x: (area.x + i * w) as u16, y: area.y, width: (w - 1) as u16, height: area.height };
    assert(composite_slot(area, n, i) == Some(sub));
    let x = CmdView::RowLabel(
        Area { x: sub.x, y: area.y, width: lw as u16, height: area.height },
        row_prefix(RowLabel::Normal, cs[i]),
        cs[i].id,
    );
    let y = CmdView::Chart(
        Area {
            x: (sub.x + lw) as u16,
            y: area.y,
            width: (if sub.width - lw >= 1 {
                sub.width - lw
            } else {
                1
            }) as u16,
            height: area.height,
        },
        cs[i].id,
    );
    assert(row_cmds(sub, cs[i], RowLabel::Normal) == seq![x, y]);
    lemma_composite_cmds_contain(area, cs, 0, i, x, y);
}

/// Plan the composite CPU graphs side by side.
pub fn plan_composite_row<N>(out: &mut Vec<DrawCmd>, area: Area, cs: &[SeriesSpec<N>])
    requires
        cs@.len() <= u16::MAX,
    ensures
        cmd_views(final(out)@) == cmd_views(old(out)@) + composite_row_cmds(area, series_views(cs@)),
{
    let ghost sv = series_views(cs@);
    if area.width < 4 {
        assert(cmd_views(out@) =~= cmd_views(out@) + Seq::<CmdView>::empty());
        return;
    }
    let n: u16 = if cs.len() >= 1 {
        cs.len() as u16
    } else {
        1
    };
    let w: u16 = if area.width / n >= 1 {
        area.width / n
    } else {
        1
    };
    assert(w == slot_width(area, n as int));
    let mut i: usize = 0;
    assert(cmd_views(out@) + composite_cmds(area, sv, 0) =~= cmd_views(old(out)@) + composite_cmds(area, sv, 0));
    while i < cs.len()
        invariant
            sv == series_views(cs@),
            area.width >= 4,
            cs@.len() <= u16::MAX,
            n == (if cs@.len() >= 1 {
                cs@.len() as int
            } else {
                1
            }),
            w == slot_width(area, n as int),
            1 <= w,
            i <= cs@.len(),
            cmd_views(old(out)@) + composite_cmds(area, sv, 0) == cmd_views(out@) + composite_cmds(area, sv, i as int),
        decreases cs@.len() - i,
    {
        proof {
            lemma_offset_bound(i as int, w as int);
        }
        let off: u32 = (i as u32) * (w as u32);
        let ghost before = cmd_views(out@);
        if (area.x as u32) + off <= 65535 {
            let sub = Area { x: ((area.x as u32) + off) as u16, y: area.y, width: w - 1, height: area.height };
            assert(composite_slot(area, n as int, i as int) == Some(sub));
            plan_labeled_row(out, sub, &cs[i], RowLabel::Normal);
        } else {
            assert(composite_slot(area, n as int, i as int) is None);
        }
        assert(before + composite_cmds(area, sv, i as int) =~= cmd_views(out@) + composite_cmds(area, sv, i + 1));
        i = i + 1;
    }
    assert(composite_cmds(area, sv, i as int) =~= Seq::<CmdView>::empty());
    assert(cmd_views(out@) + Seq::<CmdView>::empty() =~= cmd_views(out@));
}


// ---------------------------------------------------------------------------
// Storage drives
// ---------------------------------------------------------------------------

/// `n` equal shares.
pub open spec fn fills(n: nat) -> Seq<Sizing> {
    Seq::new(n, |i: int| Sizing::Fill(1))
}

/// The steps appended to `before` to make `after`, seen through `view`.
pub open spec fn added_cmds(before: Seq<DrawCmd>, after: Seq<DrawCmd>) -> Seq<CmdView> {
    cmd_views(after).skip(before.len() as int)
}

/// `after` is `before` with steps appended.
pub open spec fn extends(before: Seq<DrawCmd>, after: Seq<DrawCmd>) -> bool {
    before.len() <= after.len() && cmd_views(after) == cmd_views(before) + added_cmds(before, after)
}

proof fn lemma_appended(before: Seq<DrawCmd>, after: Seq<DrawCmd>, c: Seq<CmdView>)
    requires
        cmd_views(after) == cmd_views(before) + c,
    ensures
        extends(before, after),
        added_cmds(before, after) == c,
{
    assert(cmd_views(after).len() == after.len());
    assert(cmd_views(before).len() == before.len());
    assert(cmd_views(after).skip(before.len() as int) =~= c);
}

/// Pieces of a plan laid end to end.
pub open spec fn concat_all(pieces: Seq<Seq<CmdView>>) -> Seq<CmdView>
    decreases pieces.len(),
{
    if pieces.len() == 0 {
        seq![]
    } else {
        concat_all(pieces.drop_last()) + pieces.last()
    }
}

/// The smaller of two lengths.
pub open spec fn min_len(a: nat, b: nat) -> nat {
    if a <= b {
        a
    } else {
        b
    }
}

/// Split of a drive's area: one line for its name, the rest for its graphs.
pub open spec fn header_sizes() -> Seq<Sizing> {
    seq![Sizing::Length(1), Sizing::Fill(1)]
}

/// Split of a drive's body: 67% for the composite graph, 33% for the other sensors.
pub open spec fn drive_col_sizes() -> Seq<Sizing> {
    seq![Sizing::Percentage(67), Sizing::Percentage(33)]
}

/// A drive drawn with the given outcomes of its splits (`chunks` of its area, `cols` of
/// its body, `rows` of the sensor column): its name on the first line; below it the
/// composite graph on the left and the other sensors stacked on the right; a drive with
/// only one kind of sensor uses the whole width for it.
pub open spec fn drive_cmds_with<N>(d: DriveView<N>, chunks: Seq<Area>, cols: Seq<Area>, rows: Seq<Area>) -> Seq<CmdView> {
    let body = chunks[1];
    seq![CmdView::Heading(chunks[0], truncated(d.display_name, 72))] + if body.height == 0
        || body.width == 0 {
        seq![]
    } else if d.composite is None && d.sensors.len() == 0 {
        seq![]
    } else if d.sensors.len() == 0 {
        row_cmds(body, d.composite->0, RowLabel::Normal)
    } else if d.composite is None {
        rows_cmds(rows, d.sensors, RowLabel::StorageAux, 0)
    } else {
        row_cmds(cols[0], d.composite->0, RowLabel::StorageComposite) + rows_cmds(
            rows,
            d.sensors,
            RowLabel::StorageAux,
            0,
        )
    }
}

/// The splits a drive asks of the layout, each a possible outcome, as far as they are used.
pub open spec fn drive_splits<N>(area: Area, d: DriveView<N>, chunks: Seq<Area>, cols: Seq<Area>, rows: Seq<Area>) -> bool {
    &&& split_shape(area, Axis::Vertical, header_sizes(), chunks)
    &&& (chunks[1].height > 0 && chunks[1].width > 0 && d.sensors.len() > 0) ==> if d.composite is None {
        split_shape(chunks[1], Axis::Vertical, fills(d.sensors.len()), rows)
    } else {
        split_shape(chunks[1], Axis::Horizontal, drive_col_sizes(), cols) && split_shape(
            cols[1],
            Axis::Vertical,
            fills(d.sensors.len()),
            rows,
        )
    }
}

/// `cmds` draws drive `d` with these split outcomes.
pub open spec fn drive_plan_by<N>(
    area: Area,
    d: DriveView<N>,
    chunks: Seq<Area>,
    cols: Seq<Area>,
    rows: Seq<Area>,
    cmds: Seq<CmdView>,
) -> bool {
    drive_splits(area, d, chunks, cols, rows) && cmds == drive_cmds_with(d, chunks, cols, rows)
}

/// `cmds` draws drive `d` in `area` for some outcome of the layout: nothing when the
/// area is lower than two lines.
pub open spec fn drive_plan<N>(area: Area, d: DriveView<N>, cmds: Seq<CmdView>) -> bool {
    if area.height < 2 {
        cmds == Seq::<CmdView>::empty()
    } else {
        exists|chunks: Seq<Area>, cols: Seq<Area>, rows: Seq<Area>|
            #[trigger] drive_plan_by(area, d, chunks, cols, rows, cmds)
    }
}

/// Plan one storage drive.
pub fn plan_one_storage_drive<N>(out: &mut Vec<DrawCmd>, area: Area, drive: &StorageDriveSpec<N>)
    ensures
        extends(old(out)@, final(out)@),
        drive_plan(area, drive@, added_cmds(old(out)@, final(out)@)),
{
    let ghost before = cmd_views(out@);
    let ghost dv = drive@;
    if area.height < 2 {
        proof {
            lemma_appended(old(out)@, out@, Seq::<CmdView>::empty());
        }
        return;
    }
    let header = vec![Sizing::Length(1), Sizing::Fill(1)];
    assert(header@ =~= header_sizes());
    let chunks = layout_split(area, Axis::Vertical, header.as_slice());
    push_cmd(out, DrawCmd::Heading { area: chunks[0], text: truncate(drive.display_name.as_str(), 72) });
    let body = chunks[1];
    let has_right = drive.sensors.len() > 0;
    let has_left = drive.composite.is_some();
    if body.height == 0 || body.width == 0 || (!has_left && !has_right) {
        proof {
            let c = drive_cmds_with(dv, chunks@, chunks@, chunks@);
            assert(cmd_views(out@) =~= before + c);
            lemma_appended(old(out)@, out@, c);
            assert(drive_plan_by(area, dv, chunks@, chunks@, chunks@, c));
        }
        return;
    }
    if !has_right {
        match &drive.composite {
            Some(c) => {
                plan_labeled_row(out, body, c, RowLabel::Normal);
            },
            None => {},
        }
        proof {
            let c = drive_cmds_with(dv, chunks@, chunks@, chunks@);
            assert(cmd_views(out@) =~= before + c);
            lemma_appended(old(out)@, out@, c);
            assert(drive_plan_by(area, dv, chunks@, chunks@, chunks@, c));
        }
        return;
    }
    let rows = fill_rows(drive.sensors.len());
    assert(rows@ =~= fills(drive.sensors@.len()));
    assert(series_views(drive.sensors@) == dv.sensors);
    match &drive.composite {
        None => {
            let areas = layout_split(body, Axis::Vertical, rows.as_slice());
            plan_rows(out, &areas, drive.sensors.as_slice(), RowLabel::StorageAux);
            proof {
                let c = drive_cmds_with(dv, chunks@, chunks@, areas@);
                assert(cmd_views(out@) =~= before + c);
                lemma_appended(old(out)@, out@, c);
                assert(drive_plan_by(area, dv, chunks@, chunks@, areas@, c));
            }
        },
        Some(c) => {
            let split = vec![Sizing::Percentage(67), Sizing::Percentage(33)];
            assert(split@ =~= drive_col_sizes());
            let cols = layout_split(body, Axis::Horizontal, split.as_slice());
            plan_labeled_row(out, cols[0], c, RowLabel::StorageComposite);
            let areas = layout_split(cols[1], Axis::Vertical, rows.as_slice());
            plan_rows(out, &areas, drive.sensors.as_slice(), RowLabel::StorageAux);
            proof {
                let cs = drive_cmds_with(dv, chunks@, cols@, areas@);
                assert(cmd_views(out@) =~= before + cs);
                lemma_appended(old(out)@, out@, cs);
                assert(drive_plan_by(area, dv, chunks@, cols@, areas@, cs));
            }
        },
    }
}

/// `pieces` are the plans of the drives, the `i`-th drive in the `i`-th area, as far as
/// both last, and `cmds` is them end to end.
pub open spec fn drives_pieces<N>(
    areas: Seq<Area>,
    ds: Seq<DriveView<N>>,
    pieces: Seq<Seq<CmdView>>,
    cmds: Seq<CmdView>,
) -> bool {
    &&& pieces.len() == min_len(areas.len(), ds.len())
    &&& cmds == concat_all(pieces)
    &&& forall|i: int| 0 <= i < pieces.len() ==> drive_plan(areas[i], ds[i], #[trigger] pieces[i])
}

/// `cmds` draws the drives in the given areas.
pub open spec fn drives_plan_from<N>(areas: Seq<Area>, ds: Seq<DriveView<N>>, cmds: Seq<CmdView>) -> bool {
    exists|pieces: Seq<Seq<CmdView>>| #[trigger] drives_pieces(areas, ds, pieces, cmds)
}

/// `cmds` draws the drives stacked in equal rows of `inner`, with these rows.
pub open spec fn drives_plan_in<N>(inner: Area, ds: Seq<DriveView<N>>, areas: Seq<Area>, cmds: Seq<CmdView>) -> bool {
    split_shape(inner, Axis::Vertical, fills(ds.len()), areas) && drives_plan_from(areas, ds, cmds)
}

/// `cmds` draws the drives stacked in equal rows of `inner`, for some outcome of the layout.
pub open spec fn drives_plan<N>(inner: Area, ds: Seq<DriveView<N>>, cmds: Seq<CmdView>) -> bool {
    exists|areas: Seq<Area>| #[trigger] drives_plan_in(inner, ds, areas, cmds)
}

/// Plan drives, the `i`-th drive in the `i`-th area, as far as both last.
pub fn plan_drives<N>(out: &mut Vec<DrawCmd>, areas: &Vec<Area>, drives: &[StorageDriveSpec<N>])
    ensures
        extends(old(out)@, final(out)@),
        drives_plan_from(areas@, drive_views(drives@), added_cmds(old(out)@, final(out)@)),
{
    let ghost dv = drive_views(drives@);
    let ghost mut pieces: Seq<Seq<CmdView>> = Seq::empty();
    let mut i: usize = 0;
    assert(cmd_views(out@) =~= cmd_views(old(out)@) + concat_all(pieces));
    while i < areas.len() && i < drives.len()
        invariant
            dv == drive_views(drives@),
            i <= drives@.len(),
            i <= areas@.len(),
            pieces.len() == i,
            cmd_views(out@) == cmd_views(old(out)@) + concat_all(pieces),
            forall|j: int| 0 <= j < i ==> drive_plan(areas@[j], dv[j], #[trigger] pieces[j]),
        decreases drives@.len() - i,
    {
        let ghost bi = out@;
        plan_one_storage_drive(out, areas[i], &drives[i]);
        proof {
            let piece = added_cmds(bi, out@);
            let next = pieces.push(piece);
            assert(next.drop_last() =~= pieces);
            assert(cmd_views(out@) =~= cmd_views(old(out)@) + concat_all(next));
            assert forall|j: int| 0 <= j < i + 1 implies drive_plan(areas@[j], dv[j], #[trigger] next[j]) by {
                if j < i {
                    assert(next[j] == pieces[j]);
                }
            }
            pieces = next;
        }
        i = i + 1;
    }
    proof {
        lemma_appended(old(out)@, out@, concat_all(pieces));
        assert(drives_pieces(areas@, dv, pieces, concat_all(pieces)));
    }
}

/// Plan the drives of a storage panel, stacked in equal rows.
pub fn plan_storage_by_drive<N>(out: &mut Vec<DrawCmd>, inner: Area, drives: &[StorageDriveSpec<N>])
    ensures
        extends(old(out)@, final(out)@),
        drives_plan(inner, drive_views(drives@), added_cmds(old(out)@, final(out)@)),
{
    let rows = fill_rows(drives.len());
    assert(rows@ =~= fills(drive_views(drives@).len()));
    let areas = layout_split(inner, Axis::Vertical, rows.as_slice());
    plan_drives(out, &areas, drives);
    assert(drives_plan_in(inner, drive_views(drives@), areas@, added_cmds(old(out)@, out@)));
}

// ---------------------------------------------------------------------------
// Panels and the whole frame
// ---------------------------------------------------------------------------

/// The series whose role is (or is not) `Composite`, in order.
pub open spec fn role_filter<N>(s: Seq<SeriesView<N>>, composite: bool) -> Seq<SeriesView<N>>
    decreases s.len(),
{
    if s.len() == 0 {
        seq![]
    } else {
        role_filter(s.drop_last(), composite) + if (s.last().cpu_role == Some(CpuRole::Composite))
            == composite {
            seq![s.last()]
        } else {
            seq![]
        }
    }
}

proof fn lemma_role_filter_len<N>(s: Seq<SeriesView<N>>, composite: bool)
    ensures
        role_filter(s, composite).len() <= s.len(),
    decreases s.len(),
{
    if s.len() > 0 {
        lemma_role_filter_len(s.drop_last(), composite);
    }
}

/// Split CPU series into the composite ones and the per-core ones.
pub fn cpu_composite_and_cores<N: Copy>(series: &[SeriesSpec<N>]) -> (r: (Vec<SeriesSpec<N>>, Vec<SeriesSpec<N>>))
    ensures
        series_views(r.0@) == role_filter(series_views(series@), true),
        series_views(r.1@) == role_filter(series_views(series@), false),
{
    let ghost sv = series_views(series@);
    let mut composites: Vec<SeriesSpec<N>> = Vec::new();
    let mut cores: Vec<SeriesSpec<N>> = Vec::new();
    let mut i: usize = 0;
    assert(sv.take(0) =~= Seq::<SeriesView<N>>::empty());
    assert(series_views(composites@) =~= Seq::<SeriesView<N>>::empty());
    while i < series.len()
        invariant
            i <= series@.len(),
            sv == series_views(series@),
            series_views(composites@) == role_filter(sv.take(i as int), true),
            series_views(cores@) == role_filter(sv.take(i as int), false),
        decreases series@.len() - i,
    {
        let ghost c0 = series_views(composites@);
        let ghost k0 = series_views(cores@);
        assert(sv.take(i + 1).drop_last() =~= sv.take(i as int));
        assert(sv.take(i + 1).last() == series@[i as int]@);
        if series[i].cpu_role == Some(CpuRole::Composite) {
            composites.push(series[i].copy());
            assert(series_views(composites@) =~= c0 + seq![series@[i as int]@]);
            assert(series_views(cores@) =~= k0 + Seq::<SeriesView<N>>::empty());
        } else {
            cores.push(series[i].copy());
            assert(series_views(cores@) =~= k0 + seq![series@[i as int]@]);
            assert(series_views(composites@) =~= c0 + Seq::<SeriesView<N>>::empty());
        }
        i = i + 1;
    }
    assert(sv.take(series@.len() as int) =~= sv);
    (composites, cores)
}

/// How many equal rows the inside of a panel is split into: for the CPU panel one for
/// its composite graphs (if any) and one per core, otherwise one per series; at least one.
pub open spec fn panel_row_count<N>(p: PanelView<N>) -> nat {
    let n: nat = if p.kind == PanelKind::Cpu {
        (if role_filter(p.series, true).len() > 0 {
            1nat
        } else {
            0nat
        }) + role_filter(p.series, false).len()
    } else {
        p.series.len()
    };
    if n == 0 {
        1
    } else {
        n
    }
}

/// The rows of a panel drawn in the given areas: for the CPU panel the composite graphs
/// side by side in the first row, then a row per core; otherwise a row per series.
pub open spec fn panel_rows_with<N>(p: PanelView<N>, areas: Seq<Area>) -> Seq<CmdView> {
    if p.kind == PanelKind::Cpu {
        let comps = role_filter(p.series, true);
        let cores = role_filter(p.series, false);
        let first: int = if comps.len() > 0 {
            1
        } else {
            0
        };
        (if comps.len() > 0 {
            composite_row_cmds(areas[0], comps)
        } else {
            seq![]
        }) + rows_cmds(areas.skip(first), cores, RowLabel::Normal, 0)
    } else {
        rows_cmds(areas, p.series, RowLabel::Normal, 0)
    }
}

/// `cmds` draws the rows of a panel in equal rows of `inner`, with these rows.
pub open spec fn panel_rows_in<N>(inner: Area, p: PanelView<N>, areas: Seq<Area>, cmds: Seq<CmdView>) -> bool {
    split_shape(inner, Axis::Vertical, fills(panel_row_count(p)), areas) && cmds == panel_rows_with(p, areas)
}

/// `cmds` draws the inside of a panel for some outcome of the layout: nothing when it is
/// empty; the drives of a storage panel at least 44 cells wide; otherwise its rows.
pub open spec fn panel_body_plan<N>(inner: Area, p: PanelView<N>, cmds: Seq<CmdView>) -> bool {
    if inner.height == 0 || inner.width == 0 {
        cmds == Seq::<CmdView>::empty()
    } else if p.kind == PanelKind::Storage && p.storage_drives.len() > 0 && inner.width >= 44 {
        drives_plan(inner, p.storage_drives, cmds)
    } else {
        exists|areas: Seq<Area>| #[trigger] panel_rows_in(inner, p, areas, cmds)
    }
}

/// `cmds` draws a panel: its titled border, then its inside.
pub open spec fn panel_plan<N>(area: Area, p: PanelView<N>, cpu_model: Option<Seq<char>>, cmds: Seq<CmdView>) -> bool {
    &&& cmds.len() >= 1
    &&& cmds[0] == CmdView::Frame(area, panel_title_text(p.kind, p.title, cpu_model))
    &&& panel_body_plan(bordered_inner(area), p, cmds.drop_first())
}

fn skip_areas(v: &Vec<Area>, k: usize) -> (r: Vec<Area>)
    requires
        k <= v@.len(),
    ensures
        r@ == v@.skip(k as int),
{
    let mut r: Vec<Area> = Vec::new();
    let mut i: usize = k;
    while i < v.len()
        invariant
            k <= i <= v@.len(),
            r@ == v@.subrange(k as int, i as int),
        decreases v@.len() - i,
    {
        r.push(v[i]);
        i = i + 1;
    }
    assert(v@.subrange(k as int, v@.len() as int) =~= v@.skip(k as int));
    r
}

/// Plan one panel.
pub fn plan_panel<N: Copy>(out: &mut Vec<DrawCmd>, area: Area, panel: &PanelSpec<N>, cpu_model: &Option<String>)
    requires
        panel.kind == PanelKind::Cpu ==> panel.series@.len() <= u16::MAX,
    ensures
        extends(old(out)@, final(out)@),
        panel_plan(area, panel@, opt_chars(*cpu_model), added_cmds(old(out)@, final(out)@)),
{
    let ghost before = cmd_views(out@);
    let ghost pv = panel@;
    let title = panel_block_title(panel.kind, panel.title, cpu_model);
    let ghost frame = CmdView::Frame(area, panel_title_text(pv.kind, pv.title, opt_chars(*cpu_model)));
    push_cmd(out, DrawCmd::Frame { area, title });
    let ghost framed = out@;
    let inner = block_inner(area);
    if inner.height == 0 || inner.width == 0 {
        proof {
            assert(cmd_views(out@) =~= before + seq![frame]);
            lemma_appended(old(out)@, out@, seq![frame]);
            assert(seq![frame].drop_first() =~= Seq::<CmdView>::empty());
        }
        return;
    }
    if panel.kind == PanelKind::Storage && panel.storage_drives.len() > 0 && inner.width >= 44 {
        plan_storage_by_drive(out, inner, panel.storage_drives.as_slice());
        proof {
            let body = added_cmds(framed, out@);
            assert(cmd_views(out@) =~= before + (seq![frame] + body));
            lemma_appended(old(out)@, out@, seq![frame] + body);
            assert((seq![frame] + body).drop_first() =~= body);
        }
        return;
    }
    let ghost body_start = cmd_views(out@);
    if panel.kind == PanelKind::Cpu {
        let (composites, cores) = cpu_composite_and_cores(panel.series.as_slice());
        proof {
            lemma_role_filter_len(pv.series, true);
            lemma_role_filter_len(pv.series, false);
        }
        let first: usize = if composites.len() > 0 {
            1
        } else {
            0
        };
        let nrows = first + cores.len();
        let rows = fill_rows(if nrows == 0 {
            1
        } else {
            nrows
        });
        assert(rows@ =~= fills(panel_row_count(pv)));
        let areas = layout_split(inner, Axis::Vertical, rows.as_slice());
        if composites.len() > 0 {
            plan_composite_row(out, areas[0], composites.as_slice());
        }
        let rest = skip_areas(&areas, first);
        plan_rows(out, &rest, cores.as_slice(), RowLabel::Normal);
        proof {
            let body = panel_rows_with(pv, areas@);
            assert(cmd_views(out@) =~= before + (seq![frame] + body));
            lemma_appended(old(out)@, out@, seq![frame] + body);
            assert((seq![frame] + body).drop_first() =~= body);
            assert(panel_rows_in(inner, pv, areas@, body));
        }
    } else {
        let n = panel.series.len();
        let rows = fill_rows(if n == 0 {
            1
        } else {
            n
        });
        assert(rows@ =~= fills(panel_row_count(pv)));
        let areas = layout_split(inner, Axis::Vertical, rows.as_slice());
        plan_rows(out, &areas, panel.series.as_slice(), RowLabel::Normal);
        proof {
            let body = panel_rows_with(pv, areas@);
            assert(cmd_views(out@) =~= before + (seq![frame] + body));
            lemma_appended(old(out)@, out@, seq![frame] + body);
            assert((seq![frame] + body).drop_first() =~= body);
            assert(panel_rows_in(inner, pv, areas@, body));
        }
    }
}

/// `pieces` are the plans of the panels, the `i`-th panel in the `i`-th area, as far as
/// both last, and `cmds` is them end to end.
pub open spec fn panels_pieces<N>(
    areas: Seq<Area>,
    ps: Seq<PanelView<N>>,
    cpu_model: Option<Seq<char>>,
    pieces: Seq<Seq<CmdView>>,
    cmds: Seq<CmdView>,
) -> bool {
    &&& pieces.len() == min_len(areas.len(), ps.len())
    &&& cmds == concat_all(pieces)
    &&& forall|i: int| 0 <= i < pieces.len() ==> panel_plan(areas[i], ps[i], cpu_model, #[trigger] pieces[i])
}

/// `cmds` draws the panels in the given areas.
pub open spec fn panels_plan_from<N>(
    areas: Seq<Area>,
    ps: Seq<PanelView<N>>,
    cpu_model: Option<Seq<char>>,
    cmds: Seq<CmdView>,
) -> bool {
    exists|pieces: Seq<Seq<CmdView>>| #[trigger] panels_pieces(areas, ps, cpu_model, pieces, cmds)
}

/// Lines kept for the footer: one, two with an error, never more than the screen.
pub open spec fn footer_lines(full: Area, last_error: Option<Seq<char>>) -> int {
    let wanted: int = if last_error is Some {
        2
    } else {
        1
    };
    if wanted <= full.height {
        wanted
    } else {
        full.height as int
    }
}

/// The screen above the footer.
pub open spec fn main_area_of(full: Area, last_error: Option<Seq<char>>) -> Area {
    Area { x: full.x, y: full.y, width: full.width, height: (full.height - footer_lines(full, last_error)) as u16 }
}

/// The footer: the last line of the screen (the last two with an error).
pub open spec fn footer_area_of(full: Area, last_error: Option<Seq<char>>) -> Area {
    Area {
        x: full.x,
        y: (full.y + full.height - footer_lines(full, last_error)) as u16,
        width: full.width,
        height: footer_lines(full, last_error) as u16,
    }
}

/// `cmds` draws the panels stacked in equal rows of `main`, with these rows.
pub open spec fn frame_panels_in<N>(
    main: Area,
    panels: Seq<PanelView<N>>,
    cpu_model: Option<Seq<char>>,
    chunks: Seq<Area>,
    cmds: Seq<CmdView>,
) -> bool {
    split_shape(main, Axis::Vertical, fills(panels.len()), chunks) && panels_plan_from(chunks, panels, cpu_model, cmds)
}

/// `cmds` draws the whole screen for some outcome of the layout: the panels stacked in
/// equal rows (or a message when there are none), then the footer on the last line (the
/// last two with an error).
pub open spec fn frame_plan<N>(
    full: Area,
    panels: Seq<PanelView<N>>,
    last_error: Option<Seq<char>>,
    poll_ms: u64,
    cpu_model: Option<Seq<char>>,
    cmds: Seq<CmdView>,
) -> bool {
    &&& cmds.len() >= 1
    &&& cmds.last() == CmdView::Footer(footer_area_of(full, last_error), footer_text(poll_ms, last_error))
    &&& if panels.len() == 0 {
        cmds.drop_last() == seq![CmdView::Message(main_area_of(full, last_error), empty_message(last_error))]
    } else {
        exists|chunks: Seq<Area>|
            #[trigger] frame_panels_in(main_area_of(full, last_error), panels, cpu_model, chunks, cmds.drop_last())
    }
}

/// Plan panels, the `i`-th panel in the `i`-th area, as far as both last.
pub fn plan_panels<N: Copy>(out: &mut Vec<DrawCmd>, areas: &Vec<Area>, panels: &Vec<PanelSpec<N>>, cpu_model: &Option<String>)
    requires
        forall|p: int| 0 <= p < panels@.len() && (#[trigger] panels@[p]).kind == PanelKind::Cpu ==> panels@[p].series@.len() <= u16::MAX,
    ensures
        extends(old(out)@, final(out)@),
        panels_plan_from(areas@, panel_views(panels@), opt_chars(*cpu_model), added_cmds(old(out)@, final(out)@)),
{
    let ghost pv = panel_views(panels@);
    let ghost cm = opt_chars(*cpu_model);
    let ghost mut pieces: Seq<Seq<CmdView>> = Seq::empty();
    let mut i: usize = 0;
    assert(cmd_views(out@) =~= cmd_views(old(out)@) + concat_all(pieces));
    while i < areas.len() && i < panels.len()
        invariant
            pv == panel_views(panels@),
            cm == opt_chars(*cpu_model),
            forall|p: int| 0 <= p < panels@.len() && (#[trigger] panels@[p]).kind == PanelKind::Cpu ==> panels@[p].series@.len() <= u16::MAX,
            i <= panels@.len(),
            i <= areas@.len(),
            pieces.len() == i,
            cmd_views(out@) == cmd_views(old(out)@) + concat_all(pieces),
            forall|j: int| 0 <= j < i ==> panel_plan(areas@[j], pv[j], cm, #[trigger] pieces[j]),
        decreases panels@.len() - i,
    {
        let ghost bi = out@;
        plan_panel(out, areas[i], &panels[i], cpu_model);
        proof {
            let piece = added_cmds(bi, out@);
            let next = pieces.push(piece);
            assert(next.drop_last() =~= pieces);
            assert(cmd_views(out@) =~= cmd_views(old(out)@) + concat_all(next));
            assert forall|j: int| 0 <= j < i + 1 implies panel_plan(areas@[j], pv[j], cm, #[trigger] next[j]) by {
                if j < i {
                    assert(next[j] == pieces[j]);
                }
            }
            pieces = next;
        }
        i = i + 1;
    }
    proof {
        lemma_appended(old(out)@, out@, concat_all(pieces));
        assert(panels_pieces(areas@, pv, cm, pieces, concat_all(pieces)));
    }
}

impl<N: Copy> Monitor<N> {
    /// What to draw on a screen of size `full`, in drawing order.
    pub fn plan_frame(&self, full: Area) -> (r: Vec<DrawCmd>)
        requires
            full.y + full.height - footer_lines(full, opt_chars(self.last_error)) <= u16::MAX,
            forall|p: int| 0 <= p < self.panels@.len() && (#[trigger] self.panels@[p]).kind == PanelKind::Cpu ==> self.panels@[p].series@.len() <= u16::MAX,
        ensures
            frame_plan(
                full,
                panel_views(self.panels@),
                opt_chars(self.last_error),
                self.poll_ms,
                opt_chars(self.cpu_model),
                cmd_views(r@),
            ),
    {
        let ghost pv = panel_views(self.panels@);
        let ghost le = opt_chars(self.last_error);
        let wanted: u16 = if self.last_error.is_some() {
            2
        } else {
            1
        };
        let footer_lines: u16 = if wanted <= full.height {
            wanted
        } else {
            full.height
        };
        let main_h: u16 = full.height - footer_lines;
        let main_area = Area { x: full.x, y: full.y, width: full.width, height: main_h };
        let footer = Area { x: full.x, y: full.y + main_h, width: full.width, height: footer_lines };
        assert(main_area == main_area_of(full, le));
        assert(footer == footer_area_of(full, le));
        let mut out: Vec<DrawCmd> = Vec::new();
        let ghost start = out@;
        if self.panels.len() == 0 {
            push_cmd(&mut out, DrawCmd::Message { area: main_area, text: empty_message_exec(&self.last_error) });
        } else {
            let rows = fill_rows(self.panels.len());
            assert(rows@ =~= fills(pv.len()));
            let chunks = layout_split(main_area, Axis::Vertical, rows.as_slice());
            plan_panels(&mut out, &chunks, &self.panels, &self.cpu_model);
            proof {
                assert(cmd_views(start) =~= Seq::<CmdView>::empty());
                assert(cmd_views(out@) =~= added_cmds(start, out@));
                assert(frame_panels_in(main_area, pv, opt_chars(self.cpu_model), chunks@, cmd_views(out@)));
            }
        }
        let ghost body = cmd_views(out@);
        push_cmd(&mut out, DrawCmd::Footer { area: footer, text: footer_text_exec(self.poll_ms, &self.last_error) });
        proof {
            assert(cmd_views(out@).drop_last() =~= body);
            if self.panels.len() == 0 {
                assert(body =~= seq![CmdView::Message(main_area, empty_message(le))]);
            }
        }
        out
    }
}

} // verus!
