//! The channel table: names, bands and frequencies.
//!
//! The table itself, its names and its labels are those of the
//! `orecchiette-fpv-drone-analog-rs` crate; what is looked up in it is here.

use orecchiette_fpv_drone_analog_rs::bands::{channel_name, BandSelection};
use orecchiette_fpv_drone_analog_rs::lookup_channel_by_name;

use vstd::prelude::*;
use vstd::utf8::is_ascii_chars;

use crate::band_scan::{Channel, Signal, MAX_NAME_BYTES};
use crate::order::{first_min, gap, is_first_min, lemma_first_min, round_div};
use crate::raster::byte_len;
use crate::text::{lemma_ascii_len, lower_ascii};

verus! {

/// A band of the channel table.
#[derive(Debug, Clone, Copy, PartialEq, Eq, Structural)]
pub enum Band {
    BandA,
    BandB,
    BandE,
    Fatshark,
    Raceband,
    Lowband,
    BandD,
    Band1200,
    Band3300,
    Band1200Wide,
    /// A band this build does not know.
    Other,
}

/// The letter a band goes by on a VTX menu and in `--channel`.
pub fn band_letter(band: Band) -> (c: char)
    ensures
        c == letter(band),
{
    match band {
        Band::BandA => 'A',
        Band::BandB => 'B',
        Band::BandE => 'E',
        Band::Fatshark => 'F',
        Band::Raceband => 'R',
        Band::Lowband => 'L',
        Band::BandD => 'D',
        Band::Band1200 => '1',
        Band::Band3300 => '3',
        Band::Band1200Wide => 'W',
        Band::Other => '-',
    }
}

/// The letter of a band. A band that is not known still gets one.
pub open spec fn letter(band: Band) -> char {
    match band {
        Band::BandA => 'A',
        Band::BandB => 'B',
        Band::BandE => 'E',
        Band::Fatshark => 'F',
        Band::Raceband => 'R',
        Band::Lowband => 'L',
        Band::BandD => 'D',
        Band::Band1200 => '1',
        Band::Band3300 => '3',
        Band::Band1200Wide => 'W',
        Band::Other => '-',
    }
}

/// No two bands share a letter.
pub proof fn law_band_letters_differ(a: Band, b: Band)
    requires
        a != b,
    ensures
        letter(a) != letter(b),
{
}

/// Which FPV bands the auto-scan covers.
#[derive(Debug, Clone, Copy, PartialEq, Eq, Structural)]
pub enum ScanBands {
    /// The 5.8 GHz band only (5.645–5.945 GHz). The default.
    Band58,
    /// Every band in the channel table. Costs more tunes per sweep, so the revisit
    /// interval on any one channel goes up proportionally.
    All,
}

/// The channel table in the order the crate lists it, as name, band code and
/// frequency: all of it, or the 5.8 GHz band.
pub uninterp spec fn catalog(all: bool) -> Seq<(Seq<char>, char, u64)>;

/// The frequency of a channel name, as the crate resolves it.
pub uninterp spec fn named_channel(name: Seq<char>) -> Option<u64>;

/// The label of a frequency with all names that share it, as the crate gives it.
pub uninterp spec fn carrier_label(frequency_hz: u64) -> Option<Seq<char>>;

/// Table entries as plain values.
pub open spec fn entries(v: Seq<Channel>) -> Seq<(Seq<char>, char, u64)> {
    Seq::new(v.len(), |i: int| (v[i].name@, v[i].band, v[i].hz as u64))
}

/// How many channels the table has: all of it, or the 5.8 GHz band.
pub open spec fn table_len(all: bool) -> int {
    if all {
        154
    } else {
        40
    }
}

/// Whether an entry lies in the 5.8 GHz band.
pub open spec fn in_band58(e: (Seq<char>, char, u64)) -> bool {
    5_645_000_000 <= e.2 <= 5_945_000_000
}

/// Whether an entry's name is short ASCII and its frequency within the table's range.
pub open spec fn entry_ok(c: Channel) -> bool {
    is_ascii_chars(c.name@) && c.name@.len() <= 3 && 0 < c.hz <= 5_945_000_000
}

/// `BandSelection::channels` of the analog crate: the channel table, with each
/// entry's `name` and its band's `code`. The table holds 154 entries with frequencies
/// up to 5.945 GHz, names are a letter and a channel number of one or two digits, and the
/// 5.8 GHz selection is the whole table cut to 5.645–5.945 GHz, which leaves 40.
#[verifier::external_body]
fn table(all: bool) -> (r: Vec<Channel>)
    ensures
        entries(r@) == catalog(all),
        r@.len() == table_len(all),
        !all ==> r@.len() < catalog(true).len(),
        forall|i: int| 0 <= i < r@.len() ==> entry_ok(#[trigger] r@[i]),
        !all ==> entries(r@) == catalog(true).filter(
            |e: (Seq<char>, char, u64)| in_band58(e),
        ),
{
    let selection = if all { BandSelection::All } else { BandSelection::Band58 };
    selection
        .channels()
        .map(|c| Channel { name: c.name(), band: c.band.code(), hz: c.frequency_hz as i64 })
        .collect()
}

/// Whether some entry is at a frequency.
pub open spec fn has_frequency(e: Seq<(Seq<char>, char, u64)>, frequency_hz: u64) -> bool {
    exists|i: int| 0 <= i < e.len() && (#[trigger] e[i]).2 == frequency_hz
}

/// Whether a look-up answers every entry's own name with that entry's frequency, and
/// nothing with a frequency that no entry has.
pub open spec fn found_in(
    e: Seq<(Seq<char>, char, u64)>,
    name: Seq<char>,
    found: Option<u64>,
) -> bool {
    &&& forall|i: int| 0 <= i < e.len() && (#[trigger] e[i]).0 == name ==> found == Some(e[i].2)
    &&& found matches Some(f) ==> has_frequency(e, f)
}

/// `lookup_channel_by_name` of the analog crate: the table frequency of a channel
/// name, read without regard to case or surrounding blanks. No two entries of the
/// table share a name, so a name written as the table writes it gives its own entry's
/// frequency. Which other spellings are read as which name is left to the crate.
#[verifier::external_body]
fn lookup(name: &str) -> (r: Option<u64>)
    ensures
        r == named_channel(name@),
        r matches Some(f) ==> 0 < f <= 5_945_000_000,
        found_in(catalog(true), name@, r),
{
    lookup_channel_by_name(name)
}

/// `bands::channel_name` of the analog crate: the label of an exact carrier
/// frequency. A label joins the display names of the table entries at that
/// frequency with slashes; there are 154 entries, and no name is longer than nine
/// bytes. Every frequency of the table has a label, and no other.
#[verifier::external_body]
fn label(frequency_hz: u64) -> (r: Option<String>)
    ensures
        r is Some == has_frequency(catalog(true), frequency_hz),
        match r {
            Some(s) => carrier_label(frequency_hz) == Some(s@) && byte_len(s@) <= 1540,
            None => carrier_label(frequency_hz) is None,
        },
{
    channel_name(frequency_hz).map(|s| s.to_string())
}

/// The frequencies of table entries.
pub open spec fn entry_freqs(e: Seq<(Seq<char>, char, u64)>) -> Seq<i64> {
    Seq::new(e.len(), |i: int| e[i].2 as i64)
}

impl ScanBands {
    /// Whether the whole table is swept.
    pub open spec fn whole(self) -> bool {
        self is All
    }

    /// Short human-readable name for startup logging.
    pub fn label(self) -> (s: &'static str)
        ensures
            s@ == (match self {
                ScanBands::Band58 => "5.8 GHz"@,
                ScanBands::All => "all bands"@,
            }),
    {
        match self {
            ScanBands::Band58 => "5.8 GHz",
            ScanBands::All => "all bands",
        }
    }

    fn is_all(self) -> (r: bool)
        ensures
            r == self.whole(),
    {
        match self {
            ScanBands::Band58 => false,
            ScanBands::All => true,
        }
    }

    /// The frequencies swept, in hertz, in table order. Those of the 5.8 GHz band are a
    /// part of the whole table's, not empty and not all of them.
    pub fn channel_freqs_hz(self) -> (r: Vec<i64>)
        ensures
            r@ == entry_freqs(catalog(self.whole())),
            r@.len() == table_len(self.whole()),
            self is Band58 ==> 0 < r@.len() < entry_freqs(catalog(true)).len(),
            forall|i: int| 0 <= i < r@.len() ==> 0 < #[trigger] r@[i] <= 5_945_000_000,
            self is Band58 ==> forall|i: int|
                0 <= i < r@.len() ==> 5_645_000_000 <= #[trigger] r@[i] <= 5_945_000_000,
            self is Band58 ==> forall|i: int|
                0 <= i < r@.len() ==> entry_freqs(catalog(true)).contains(#[trigger] r@[i]),
    {
        let list: Vec<Channel> = table(self.is_all());
        let mut r: Vec<i64> = Vec::new();
        let mut i: usize = 0;
        while i < list.len()
            invariant
                i <= list@.len(),
                entries(list@) == catalog(self.whole()),
                list@.len() == table_len(self.whole()),
                self is Band58 ==> list@.len() < catalog(true).len(),
                forall|k: int| 0 <= k < list@.len() ==> entry_ok(#[trigger] list@[k]),
                r@ == entry_freqs(catalog(self.whole())).take(i as int),
            decreases list@.len() - i,
        {
            assert(entry_ok(list@[i as int]));
            r.push(list[i].hz);
            i = i + 1;
            assert(r@ =~= entry_freqs(catalog(self.whole())).take(i as int));
        }
        proof {
            assert(r@ =~= entry_freqs(catalog(self.whole())));
            assert forall|k: int| 0 <= k < r@.len() implies 0 < #[trigger] r@[k]
                <= 5_945_000_000 by {
                assert(entry_ok(list@[k]));
            }
            if self is Band58 {
                let p = |e: (Seq<char>, char, u64)| in_band58(e);
                assert forall|k: int| 0 <= k < r@.len() implies 5_645_000_000 <= #[trigger] r@[k]
                    <= 5_945_000_000 && entry_freqs(catalog(true)).contains(r@[k]) by {
                    let e = catalog(true).filter(p)[k];
                    catalog(true).lemma_filter_pred(p, k);
                    assert(catalog(true).filter(p).contains(e));
                    catalog(true).lemma_filter_contains_rev(p, e);
                    let j = choose|j: int| 0 <= j < catalog(true).len() && catalog(true)[j] == e;
                    assert(entry_freqs(catalog(true))[j] == r@[k]);
                }
            }
        }
        r
    }
}

impl ScanBands {
    /// The channels swept, in table order.
    pub fn channels(self) -> (r: Vec<Channel>)
        ensures
            entries(r@) == catalog(self.whole()),
            crate::band_scan::channels_fit(r@),
    {
        let list: Vec<Channel> = table(self.is_all());
        proof {
            assert forall|i: int| 0 <= i < list@.len() implies 0 <= (#[trigger] list@[i]).hz
                <= crate::axis::MAX_CHANNEL_HZ && byte_len(list@[i].name@) <= MAX_NAME_BYTES by {
                assert(entry_ok(list@[i]));
                lemma_ascii_len(list@[i].name@);
            }
        }
        list
    }
}

/// Whole megahertz nearest to a frequency in millihertz, in hertz.
pub open spec fn nearest_mhz_hz(milli_hz: int) -> int {
    round_div(milli_hz, 1_000_000_000) * 1_000_000
}

/// The label of a frequency after rounding it to the nearest megahertz.
pub open spec fn label_near(milli_hz: int) -> Option<Seq<char>> {
    carrier_label(nearest_mhz_hz(milli_hz) as u64)
}

/// The label of a frequency after rounding it to the nearest megahertz. There is one
/// exactly where the table has a channel there.
pub fn get_fpv_channel_name(milli_hz: u64) -> (r: Option<String>)
    ensures
        r is Some == has_frequency(catalog(true), nearest_mhz_hz(milli_hz as int) as u64),
        match r {
            Some(s) => label_near(milli_hz as int) == Some(s@) && byte_len(s@) <= 1540,
            None => label_near(milli_hz as int) is None,
        },
{
    let mhz: u64 = (milli_hz / 500_000_000 + 1) / 2;
    proof {
        let m = milli_hz as int;
        assert((2 * m + 1_000_000_000) / 2_000_000_000 == (m / 500_000_000 + 1) / 2);
        assert(round_div(m, 1_000_000_000) == (2 * m + 1_000_000_000) / 2_000_000_000);
    }
    label(mhz * 1_000_000)
}

/// Distances of the table's carriers from a frequency, in millihertz.
pub open spec fn table_gaps(freqs: Seq<i64>, milli_hz: int) -> Seq<int> {
    Seq::new(freqs.len(), |i: int| gap(1000 * freqs[i], milli_hz))
}

/// Table carriers this far from a frequency, or further, are not it.
pub const CHANNEL_SNAP_MILLI_HZ: i64 = 15_000_000_000;

/// The nearest of some carriers where it is within snapping distance, else the
/// frequency itself.
pub open spec fn snapped(freqs: Seq<i64>, milli_hz: int) -> int {
    let far = table_gaps(freqs, milli_hz);
    if freqs.len() > 0 && far[first_min(far)] < CHANNEL_SNAP_MILLI_HZ {
        1000 * freqs[first_min(far)]
    } else {
        milli_hz
    }
}

/// Snap a measured carrier to the nearest table channel; an off-table measurement
/// stays as it is.
pub fn snap_to_nearest_fpv_channel(milli_hz: u64) -> (r: u64)
    ensures
        r == snapped(entry_freqs(catalog(true)), milli_hz as int),
{
    let freqs: Vec<i64> = ScanBands::All.channel_freqs_hz();
    snap_to(&freqs, milli_hz)
}

/// Snap a measured carrier to the nearest of some carriers.
pub fn snap_to(freqs: &Vec<i64>, milli_hz: u64) -> (r: u64)
    requires
        forall|i: int| 0 <= i < freqs@.len() ==> 0 <= #[trigger] freqs@[i] <= u64::MAX / 1000,
    ensures
        r == snapped(freqs@, milli_hz as int),
{
    let ghost far = table_gaps(freqs@, milli_hz as int);
    if freqs.len() == 0 {
        return milli_hz;
    }
    let mut best: usize = 0;
    let mut i: usize = 1;
    while i < freqs.len()
        invariant
            1 <= i <= freqs@.len(),
            best < i,
            far == table_gaps(freqs@, milli_hz as int),
            forall|k: int|
                0 <= k < freqs@.len() ==> 0 <= #[trigger] freqs@[k] <= u64::MAX / 1000,
            forall|j: int| 0 <= j < i ==> far[best as int] <= #[trigger] far[j],
            forall|j: int| 0 <= j < best ==> far[best as int] < #[trigger] far[j],
        decreases freqs@.len() - i,
    {
        assert(0 <= freqs@[i as int] <= u64::MAX / 1000);
        assert(0 <= freqs@[best as int] <= u64::MAX / 1000);
        let here: i128 = crate::band_scan::distance(1000 * freqs[i] as i128, milli_hz as i128);
        let least: i128 = crate::band_scan::distance(1000 * freqs[best] as i128, milli_hz as i128);
        if here < least {
            best = i;
        }
        i = i + 1;
    }
    proof {
        assert(is_first_min(far, best as int));
        lemma_first_min(far);
        assert(0 <= freqs@[best as int] <= u64::MAX / 1000);
    }
    if crate::band_scan::distance(1000 * freqs[best] as i128, milli_hz as i128)
        < CHANNEL_SNAP_MILLI_HZ as i128 {
        1000 * freqs[best] as u64
    } else {
        milli_hz
    }
}

/// Snapping twice changes nothing more, and never moves a carrier by a snapping
/// distance or more.
pub proof fn law_snapping_settles(freqs: Seq<i64>, milli_hz: int)
    ensures
        snapped(freqs, snapped(freqs, milli_hz)) == snapped(freqs, milli_hz),
        gap(snapped(freqs, milli_hz), milli_hz) < CHANNEL_SNAP_MILLI_HZ,
{
    let far = table_gaps(freqs, milli_hz);
    if freqs.len() > 0 {
        lemma_first_min(far);
        let at = snapped(freqs, milli_hz);
        let again = table_gaps(freqs, at);
        lemma_first_min(again);
        if far[first_min(far)] < CHANNEL_SNAP_MILLI_HZ {
            assert(again[first_min(far)] == 0);
            assert(again[first_min(again)] <= again[first_min(far)]);
        }
    }
}

/// Slowest raw frequency that is taken for one, in millihertz.
pub const RAW_CHANNEL_ABOVE_MILLI_HZ: u64 = 1_000_000_000;

/// What `--channel` means: a table channel, else a raw frequency above 1 MHz.
pub open spec fn channel_meant(named: Option<u64>, raw_milli_hz: Option<u64>) -> Option<int> {
    match named {
        Some(f) => Some(1000 * f),
        None => match raw_milli_hz {
            Some(f) => if f > RAW_CHANNEL_ABOVE_MILLI_HZ {
                Some(f as int)
            } else {
                None
            },
            None => None,
        },
    }
}

/// Why a `--channel` was refused.
pub open spec fn channel_error(ch: Seq<char>) -> Seq<char> {
    "unrecognised channel '"@ + ch
        + "'; expected a catalog channel (A/B/E/F/R/L/D/U/N/W/T/S) or a frequency in Hz"@
}

/// Resolve `--channel` to a centre frequency in millihertz: a table name first, then
/// the raw frequency the text reads as, if it reads as one. Every channel of the table
/// is reached by its name.
pub fn resolve_channel(ch: &str, raw_milli_hz: Option<u64>) -> (r: Result<u64, String>)
    ensures
        forall|i: int|
            0 <= i < catalog(true).len() && (#[trigger] catalog(true)[i]).0 == ch@ ==> r is Ok
                && r->Ok_0 == 1000 * catalog(true)[i].2,
        match r {
            Ok(f) => channel_meant(named_channel(ch@), raw_milli_hz) == Some(f as int),
            Err(e) => channel_meant(named_channel(ch@), raw_milli_hz) is None && e@
                == channel_error(ch@),
        },
{
    choose_channel(ch, lookup(ch), raw_milli_hz)
}

/// `resolve_channel` once the name has been looked up.
pub fn choose_channel(ch: &str, named: Option<u64>, raw_milli_hz: Option<u64>) -> (r: Result<
    u64,
    String,
>)
    requires
        named matches Some(f) ==> 1000 * f <= u64::MAX,
    ensures
        match r {
            Ok(f) => channel_meant(named, raw_milli_hz) == Some(f as int),
            Err(e) => channel_meant(named, raw_milli_hz) is None && e@ == channel_error(ch@),
        },
{
    if let Some(f) = named {
        return Ok(1000 * f);
    }
    if let Some(f) = raw_milli_hz {
        if f > RAW_CHANNEL_ABOVE_MILLI_HZ {
            return Ok(f);
        }
    }
    let mut e: String = String::new();
    e.append("unrecognised channel '");
    e.append(ch);
    e.append("'; expected a catalog channel (A/B/E/F/R/L/D/U/N/W/T/S) or a frequency in Hz");
    assert(e@ =~= channel_error(ch@));
    Err(e)
}

/// A text in lower case, as std converts it.
pub uninterp spec fn lowercased(s: Seq<char>) -> Seq<char>;

/// `str::to_lowercase` of std: the text in lower case. In an ASCII text that is its 26
/// upper-case letters shifted, and nothing else; of other texts nothing is stated.
#[verifier::external_body]
fn lowercase(s: &str) -> (r: String)
    ensures
        r@ == lowercased(s@),
        is_ascii_chars(s@) ==> r@ == lower_ascii(s@),
{
    s.to_lowercase()
}

/// The standard a lower-case word names.
pub open spec fn standard_of_word(word: Seq<char>) -> Option<Signal> {
    if word == "pal"@ {
        Some(Signal::Pal)
    } else if word == "ntsc"@ {
        Some(Signal::Ntsc)
    } else {
        None
    }
}

/// Why a `--standard` was refused.
pub open spec fn standard_error(s: Seq<char>) -> Seq<char> {
    "unknown standard '"@ + s + "'; expected 'pal' or 'ntsc'"@
}

/// Whether two texts are the same.
pub fn same_text(a: &str, b: &str) -> (r: bool)
    ensures
        r == (a@ == b@),
{
    let a: String = String::from_str(a);
    let b: String = String::from_str(b);
    a == b
}

/// The standard a lower-case word names.
pub fn standard_from_word(word: &str) -> (r: Option<Signal>)
    ensures
        r == standard_of_word(word@),
{
    proof {
        reveal_strlit("pal");
        reveal_strlit("ntsc");
    }
    if same_text(word, "pal") {
        Some(Signal::Pal)
    } else if same_text(word, "ntsc") {
        Some(Signal::Ntsc)
    } else {
        None
    }
}

/// Read `--standard`, without regard to case.
pub fn parse_standard(s: &str) -> (r: Result<Signal, String>)
    ensures
        match r {
            Ok(t) => standard_of_word(lowercased(s@)) == Some(t),
            Err(e) => standard_of_word(lowercased(s@)) is None && e@ == standard_error(s@),
        },
        is_ascii_chars(s@) ==> match r {
            Ok(t) => standard_of_word(lower_ascii(s@)) == Some(t),
            Err(e) => standard_of_word(lower_ascii(s@)) is None,
        },
{
    let lower: String = lowercase(s);
    match standard_from_word(lower.as_str()) {
        Some(t) => Ok(t),
        None => {
            let mut e: String = String::new();
            e.append("unknown standard '");
            e.append(s);
            e.append("'; expected 'pal' or 'ntsc'");
            assert(e@ =~= standard_error(s@));
            Err(e)
        },
    }
}

/// Whether some table name is longer than a typed text and begins with it.
pub open spec fn has_longer_name(e: Seq<(Seq<char>, char, u64)>, typed: Seq<char>) -> bool {
    exists|i: int| 0 <= i < e.len() && begins_longer(#[trigger] e[i].0, typed)
}

/// Whether a name is longer than a text and begins with it.
pub open spec fn begins_longer(name: Seq<char>, typed: Seq<char>) -> bool {
    name.len() > typed.len() && name.take(typed.len() as int) == typed
}

fn starts_longer(name: &str, typed: &str) -> (r: bool)
    ensures
        r == begins_longer(name@, typed@),
{
    let n: usize = name.unicode_len();
    let m: usize = typed.unicode_len();
    if n <= m {
        return false;
    }
    let mut i: usize = 0;
    while i < m
        invariant
            i <= m,
            m == typed@.len(),
            n == name@.len(),
            m < n,
            forall|k: int| 0 <= k < i ==> name@[k] == typed@[k],
        decreases m - i,
    {
        if name.get_char(i) != typed.get_char(i) {
            assert(name@.take(m as int)[i as int] != typed@[i as int]);
            return false;
        }
        i = i + 1;
    }
    assert(name@.take(m as int) =~= typed@);
    true
}

/// What the table says of a typed text: the channel it names, and whether a longer
/// name begins with it.
pub fn look_up_typed(typed: &str) -> (r: (Option<u64>, bool))
    ensures
        r.0 == named_channel(typed@),
        r.0 matches Some(f) ==> 0 < f <= 5_945_000_000,
        found_in(catalog(true), typed@, r.0),
        r.1 == has_longer_name(catalog(true), typed@),
        r.1 ==> typed@.len() < 3,
{
    let exact: Option<u64> = lookup(typed);
    let list: Vec<Channel> = table(true);
    let mut i: usize = 0;
    while i < list.len()
        invariant
            i <= list@.len(),
            exact == named_channel(typed@),
            exact matches Some(f) ==> 0 < f <= 5_945_000_000,
            found_in(catalog(true), typed@, exact),
            entries(list@) == catalog(true),
            forall|k: int| 0 <= k < list@.len() ==> entry_ok(#[trigger] list@[k]),
            forall|k: int| 0 <= k < i ==> !begins_longer(#[trigger] catalog(true)[k].0, typed@),
        decreases list@.len() - i,
    {
        assert(entry_ok(list@[i as int]));
        assert(catalog(true)[i as int].0 == list@[i as int].name@);
        if starts_longer(list[i].name.as_str(), typed) {
            return (exact, true);
        }
        i = i + 1;
    }
    (exact, false)
}

} // verus!
