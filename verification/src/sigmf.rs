//! Recordings: what a SigMF description says, and what is decoded from it.
//!
//! Frequencies are in millihertz.

use vstd::prelude::*;
use vstd::utf8::is_ascii_chars;

use crate::band_scan::Signal;
use crate::bands::same_text;
use crate::text::{decimal, push_decimal, upper_ascii};

verus! {

/// One annotation of a recording.
#[derive(Debug)]
pub struct Annotation {
    pub lower_milli_hz: i64,
    pub upper_milli_hz: i64,
    pub label: String,
}

impl Annotation {
    /// An annotation from what was written of it: an edge that is missing is at zero, and
    /// a label that is missing is `Unknown`.
    pub fn written(lower: Option<i64>, upper: Option<i64>, label: Option<String>) -> (a: Annotation)
        ensures
            a.lower_milli_hz == (match lower {
                Some(milli_hz) => milli_hz,
                None => 0,
            }),
            a.upper_milli_hz == (match upper {
                Some(milli_hz) => milli_hz,
                None => 0,
            }),
            a.label@ == (match label {
                Some(text) => text@,
                None => "Unknown"@,
            }),
    {
        let label: String = match label {
            Some(text) => text,
            None => {
                let mut text: String = String::new();
                text.append("Unknown");
                assert(text@ =~= "Unknown"@);
                text
            },
        };
        Annotation {
            lower_milli_hz: match lower {
                Some(milli_hz) => milli_hz,
                None => 0,
            },
            upper_milli_hz: match upper {
                Some(milli_hz) => milli_hz,
                None => 0,
            },
            label,
        }
    }
}

/// What a SigMF description says, as far as it is read.
#[derive(Debug)]
pub struct SigmfMeta {
    pub sample_rate: Option<u64>,
    pub deviation_milli_hz: Option<i64>,
    pub datatype: Option<String>,
    pub center_milli_hz: Option<i64>,
    pub annotations: Vec<Annotation>,
}

/// A channel of a recording: its standard where the label names one, and its offset
/// from the recording's centre.
#[derive(Debug)]
pub struct FileChannel {
    pub standard: Option<Signal>,
    pub offset_milli_hz: i64,
    pub label: String,
}

/// How a recording is decoded.
#[derive(Debug)]
pub struct FileConfig {
    pub sample_rate: u32,
    pub deviation_milli_hz: i64,
    pub center_milli_hz: i64,
    pub channels: Vec<FileChannel>,
}

/// Why a recording cannot be decoded.
#[derive(Debug)]
pub enum FileError {
    /// Samples of another type than interleaved little-endian 32-bit floats would
    /// silently decode as garbage.
    Datatype(String),
    ZeroSampleRate,
    Deviation(i64),
}

/// Sample rate where neither the operator nor the description gives one.
pub const DEFAULT_SAMPLE_RATE: u32 = 100_000_000;

/// FM deviation where neither the operator nor the description gives one.
pub const DEFAULT_DEVIATION_MILLI_HZ: i64 = 17_000_000_000;

/// Centre of a recording that does not give one.
pub const DEFAULT_CENTER_MILLI_HZ: i64 = 5_800_000_000_000;

/// Offset of the two channels tried where a recording names none.
pub const DEFAULT_OFFSET_MILLI_HZ: i64 = 25_000_000_000;

/// Furthest an annotation's edges may lie from zero.
pub const MAX_EDGE_MILLI_HZ: i64 = 4_000_000_000_000_000_000;

/// A text in upper case, as std converts it.
pub uninterp spec fn uppercased(s: Seq<char>) -> Seq<char>;

/// `str::to_uppercase` of std: the text in upper case. In an ASCII text that is its 26
/// lower-case letters shifted, and nothing else; of other texts nothing is stated.
#[verifier::external_body]
fn uppercase(s: &str) -> (r: String)
    ensures
        r@ == uppercased(s@),
        is_ascii_chars(s@) ==> r@ == upper_ascii(s@),
{
    s.to_uppercase()
}

/// Whether a text occurs in another at a place.
pub open spec fn occurs_at(hay: Seq<char>, needle: Seq<char>, at: int) -> bool {
    0 <= at && at + needle.len() <= hay.len() && hay.subrange(at, at + needle.len()) == needle
}

/// Whether a text occurs in another.
pub open spec fn occurs(hay: Seq<char>, needle: Seq<char>) -> bool {
    exists|at: int| occurs_at(hay, needle, at)
}

/// Whether a text occurs in another.
pub fn contains_text(hay: &str, needle: &str) -> (r: bool)
    ensures
        r == occurs(hay@, needle@),
{
    let n: usize = hay.unicode_len();
    let m: usize = needle.unicode_len();
    if m > n {
        return false;
    }
    let mut at: usize = 0;
    while at <= n - m
        invariant
            n == hay@.len(),
            m == needle@.len(),
            m <= n,
            at <= n - m,
            forall|k: int| 0 <= k < at ==> !occurs_at(hay@, needle@, k),
        decreases n - m - at,
    {
        let mut j: usize = 0;
        let mut same: bool = true;
        while j < m && same
            invariant
                n == hay@.len(),
                m == needle@.len(),
                m <= n,
                at <= n - m,
                j <= m,
                same ==> forall|k: int| 0 <= k < j ==> hay@[at + k] == needle@[k],
                !same ==> exists|k: int| 0 <= k < m && hay@[at + k] != needle@[k],
            decreases m - j, (if same { 1int } else { 0 }),
        {
            if hay.get_char(at + j) != needle.get_char(j) {
                assert(hay@[at + j] != needle@[j as int]);
                same = false;
            } else {
                j = j + 1;
            }
        }
        if same {
            assert(hay@.subrange(at as int, at + m) =~= needle@);
            assert(occurs_at(hay@, needle@, at as int));
            return true;
        }
        proof {
            let k = choose|k: int| 0 <= k < m && hay@[at + k] != needle@[k];
            assert(hay@.subrange(at as int, at + m)[k] != needle@[k]);
            assert(!occurs_at(hay@, needle@, at as int));
        }
        if at == n - m {
            proof {
                assert forall|k: int| !occurs_at(hay@, needle@, k) by {}
            }
            return false;
        }
        at = at + 1;
    }
    false
}

/// What an upper-case label says of its channel: `None` where it is no video, else the
/// standard it names, if any.
pub open spec fn label_standard(upper: Seq<char>) -> Option<Option<Signal>> {
    if occurs(upper, "PAL"@) {
        Some(Some(Signal::Pal))
    } else if occurs(upper, "NTSC"@) {
        Some(Some(Signal::Ntsc))
    } else if occurs(upper, "ANALOG"@) || occurs(upper, "VIDEO"@) {
        Some(None)
    } else {
        None
    }
}

/// What an upper-case label says of its channel.
pub fn standard_from_label(upper: &str) -> (r: Option<Option<Signal>>)
    ensures
        r == label_standard(upper@),
{
    if contains_text(upper, "PAL") {
        Some(Some(Signal::Pal))
    } else if contains_text(upper, "NTSC") {
        Some(Some(Signal::Ntsc))
    } else if contains_text(upper, "ANALOG") || contains_text(upper, "VIDEO") {
        Some(None)
    } else {
        None
    }
}

/// A channel as plain values.
pub open spec fn channel_parts(c: FileChannel) -> (Option<Signal>, int, Seq<char>) {
    (c.standard, c.offset_milli_hz as int, c.label@)
}

/// Channels as plain values.
pub open spec fn channels_parts(v: Seq<FileChannel>) -> Seq<(Option<Signal>, int, Seq<char>)> {
    Seq::new(v.len(), |i: int| channel_parts(v[i]))
}

/// The channels that annotations name, in order: a channel sits at the middle of its
/// annotation, and labels of anything else than video are passed over.
pub open spec fn annotated(anns: Seq<Annotation>) -> Seq<(Option<Signal>, int, Seq<char>)>
    decreases anns.len(),
{
    if anns.len() == 0 {
        Seq::empty()
    } else {
        let front = annotated(anns.drop_last());
        let a = anns.last();
        match label_standard(uppercased(a.label@)) {
            Some(standard) => front.push(
                (standard, (a.lower_milli_hz + a.upper_milli_hz) / 2, a.label@),
            ),
            None => front,
        }
    }
}

/// The channels tried where a recording names none.
pub open spec fn default_channels() -> Seq<(Option<Signal>, int, Seq<char>)> {
    seq![
        (None, -(DEFAULT_OFFSET_MILLI_HZ as int), "Channel A"@),
        (None, DEFAULT_OFFSET_MILLI_HZ as int, "Channel B"@),
    ]
}

/// The channels of a recording.
pub open spec fn recorded_channels(anns: Seq<Annotation>) -> Seq<(Option<Signal>, int, Seq<char>)> {
    if annotated(anns).len() == 0 {
        default_channels()
    } else {
        annotated(anns)
    }
}

/// Whether annotations lie within range.
pub open spec fn annotations_fit(anns: Seq<Annotation>) -> bool {
    forall|i: int|
        0 <= i < anns.len() ==> -MAX_EDGE_MILLI_HZ <= (#[trigger] anns[i]).lower_milli_hz
            <= MAX_EDGE_MILLI_HZ && -MAX_EDGE_MILLI_HZ <= anns[i].upper_milli_hz
            <= MAX_EDGE_MILLI_HZ
}

/// Half of a sum, rounded down.
fn middle(a: i64, b: i64) -> (m: i64)
    requires
        -MAX_EDGE_MILLI_HZ <= a <= MAX_EDGE_MILLI_HZ,
        -MAX_EDGE_MILLI_HZ <= b <= MAX_EDGE_MILLI_HZ,
    ensures
        m == (a + b) / 2,
{
    let sum: i64 = a + b;
    if sum >= 0 {
        sum / 2
    } else {
        -((1 - sum) / 2)
    }
}

fn text_of(s: &str) -> (r: String)
    ensures
        r@ == s@,
{
    String::from_str(s)
}

/// Whether every ASCII label is read with its 26 lower-case letters in upper case.
pub open spec fn labels_read(anns: Seq<Annotation>) -> bool {
    forall|i: int|
        0 <= i < anns.len() && is_ascii_chars((#[trigger] anns[i]).label@) ==> uppercased(
            anns[i].label@,
        ) == upper_ascii(anns[i].label@)
}

/// The channels of a recording.
fn channels_of(anns: &Vec<Annotation>) -> (r: Vec<FileChannel>)
    requires
        annotations_fit(anns@),
    ensures
        channels_parts(r@) == recorded_channels(anns@),
        labels_read(anns@),
{
    let mut r: Vec<FileChannel> = Vec::new();
    let mut i: usize = 0;
    assert(channels_parts(r@) =~= annotated(anns@.take(0)));
    while i < anns.len()
        invariant
            i <= anns@.len(),
            annotations_fit(anns@),
            channels_parts(r@) == annotated(anns@.take(i as int)),
            forall|k: int|
                0 <= k < i && is_ascii_chars((#[trigger] anns@[k]).label@) ==> uppercased(
                    anns@[k].label@,
                ) == upper_ascii(anns@[k].label@),
        decreases anns@.len() - i,
    {
        let ghost before = channels_parts(r@);
        let a: &Annotation = &anns[i];
        proof {
            assert(anns@.take(i + 1).drop_last() =~= anns@.take(i as int));
            assert(anns@.take(i + 1).last() == anns@[i as int]);
            assert(-MAX_EDGE_MILLI_HZ <= anns@[i as int].lower_milli_hz <= MAX_EDGE_MILLI_HZ);
        }
        let upper: String = uppercase(a.label.as_str());
        if let Some(standard) = standard_from_label(upper.as_str()) {
            let c: FileChannel = FileChannel {
                standard,
                offset_milli_hz: middle(a.lower_milli_hz, a.upper_milli_hz),
                label: a.label.clone(),
            };
            r.push(c);
            assert(channels_parts(r@) =~= before.push(channel_parts(c)));
        }
        i = i + 1;
    }
    assert(anns@.take(anns@.len() as int) =~= anns@);
    if r.len() == 0 {
        assert(annotated(anns@).len() == 0);
        r.push(
            FileChannel {
                standard: None,
                offset_milli_hz: -DEFAULT_OFFSET_MILLI_HZ,
                label: text_of("Channel A"),
            },
        );
        r.push(
            FileChannel {
                standard: None,
                offset_milli_hz: DEFAULT_OFFSET_MILLI_HZ,
                label: text_of("Channel B"),
            },
        );
        assert(channels_parts(r@) =~= default_channels());
    } else {
        assert(channels_parts(r@).len() > 0);
    }
    r
}

/// The sample rate of a recording: the description's, else the operator's, else the
/// default. The description's is read as a 32-bit number.
pub open spec fn rate_meant(described: Option<u64>, asked: Option<u32>) -> int {
    match described {
        Some(r) => r as int % 0x1_0000_0000,
        None => match asked {
            Some(r) => r as int,
            None => DEFAULT_SAMPLE_RATE as int,
        },
    }
}

/// The deviation of a recording: the description's, else the operator's, else the
/// default.
pub open spec fn deviation_meant(described: Option<i64>, asked: Option<i64>) -> int {
    match described {
        Some(d) => d as int,
        None => match asked {
            Some(d) => d as int,
            None => DEFAULT_DEVIATION_MILLI_HZ as int,
        },
    }
}

/// Whether a recording's samples are of the type that is read.
pub open spec fn datatype_ok(datatype: Option<String>) -> bool {
    datatype matches Some(t) ==> t@ == "cf32_le"@
}

/// How a recording is decoded, given its description where it has one and what the
/// operator asked for. Labels are read without regard to case.
pub fn configure(
    meta: Option<SigmfMeta>,
    asked_rate: Option<u32>,
    asked_deviation_milli_hz: Option<i64>,
) -> (r: Result<FileConfig, FileError>)
    requires
        meta matches Some(m) ==> annotations_fit(m.annotations@),
    ensures
        ({
            let described = meta is Some;
            let m = meta->0;
            let rate = rate_meant(
                if described {
                    m.sample_rate
                } else {
                    None
                },
                asked_rate,
            );
            let deviation = deviation_meant(
                if described {
                    m.deviation_milli_hz
                } else {
                    None
                },
                asked_deviation_milli_hz,
            );
            if described && !datatype_ok(m.datatype) {
                r matches Err(FileError::Datatype(t)) && t@ == m.datatype->0@
            } else if rate == 0 {
                r matches Err(FileError::ZeroSampleRate)
            } else if deviation <= 0 {
                r matches Err(FileError::Deviation(d)) && d == deviation
            } else {
                &&& r is Ok
                &&& described ==> labels_read(m.annotations@)
                &&& r->Ok_0.sample_rate == rate
                &&& r->Ok_0.deviation_milli_hz == deviation
                &&& r->Ok_0.center_milli_hz == (if described && m.center_milli_hz is Some {
                    m.center_milli_hz->0
                } else {
                    DEFAULT_CENTER_MILLI_HZ
                })
                &&& channels_parts(r->Ok_0.channels@) == recorded_channels(
                    if described {
                        m.annotations@
                    } else {
                        Seq::empty()
                    },
                )
            }
        }),
{
    let mut sample_rate: u32 = match asked_rate {
        Some(r) => r,
        None => DEFAULT_SAMPLE_RATE,
    };
    let mut deviation: i64 = match asked_deviation_milli_hz {
        Some(d) => d,
        None => DEFAULT_DEVIATION_MILLI_HZ,
    };
    let mut center: i64 = DEFAULT_CENTER_MILLI_HZ;
    let mut channels: Vec<FileChannel> = Vec::new();
    match meta {
        Some(m) => {
            if let Some(r) = m.sample_rate {
                sample_rate = (r % 0x1_0000_0000) as u32;
            }
            if let Some(d) = m.deviation_milli_hz {
                deviation = d;
            }
            if let Some(t) = m.datatype {
                if !same_text(t.as_str(), "cf32_le") {
                    return Err(FileError::Datatype(t));
                }
            }
            if let Some(f) = m.center_milli_hz {
                center = f;
            }
            channels = channels_of(&m.annotations);
        },
        None => {
            let none: Vec<Annotation> = Vec::new();
            channels = channels_of(&none);
            assert(none@ =~= Seq::empty());
        },
    }
    if sample_rate == 0 {
        return Err(FileError::ZeroSampleRate);
    }
    if deviation <= 0 {
        return Err(FileError::Deviation(deviation));
    }
    Ok(FileConfig { sample_rate, deviation_milli_hz: deviation, center_milli_hz: center, channels })
}

/// Complex samples read at a time: a tenth of a second.
pub fn chunk_samples(sample_rate: u32) -> (n: usize)
    ensures
        n == sample_rate / 10,
{
    (sample_rate / 10) as usize
}

/// A recording always has a channel to decode.
pub proof fn law_recording_has_a_channel(anns: Seq<Annotation>)
    ensures
        recorded_channels(anns).len() > 0,
{
}

/// A frequency in hertz as printed: whole, or with the millihertz that matter.
pub open spec fn hz_text(milli_hz: int) -> Seq<char> {
    let size = if milli_hz < 0 {
        -milli_hz
    } else {
        milli_hz
    };
    (if milli_hz < 0 {
        "-"@
    } else {
        Seq::empty()
    }) + decimal(size / 1000) + fraction_text(size % 1000)
}

/// Thousandths behind a decimal point, without trailing zeros.
pub open spec fn fraction_text(thousandths: int) -> Seq<char> {
    if thousandths == 0 {
        Seq::empty()
    } else if thousandths % 100 == 0 {
        "."@ + decimal(thousandths / 100)
    } else if thousandths % 10 == 0 {
        "."@ + decimal(thousandths / 100) + decimal(thousandths / 10 % 10)
    } else {
        "."@ + decimal(thousandths / 100) + decimal(thousandths / 10 % 10) + decimal(
            thousandths % 10,
        )
    }
}

/// The message of an error.
pub open spec fn error_text(e: FileError) -> Seq<char> {
    match e {
        FileError::Datatype(t) => "unsupported SigMF core:datatype '"@ + t@
            + "'; only cf32_le (interleaved little-endian f32 IQ) is supported"@,
        FileError::ZeroSampleRate => "sample rate resolved to 0 Hz; pass a valid --sample-rate"@,
        FileError::Deviation(d) => "fm deviation resolved to "@ + hz_text(d as int)
            + " Hz; pass a positive --fm-deviation"@,
    }
}

impl FileError {
    /// The message of the error.
    pub fn message(&self) -> (text: String)
        requires
            *self matches FileError::Deviation(d) ==> d > i64::MIN,
        ensures
            text@ == error_text(*self),
    {
        let mut text: String = String::new();
        match self {
            FileError::Datatype(t) => {
                text.append("unsupported SigMF core:datatype '");
                text.append(t.as_str());
                text.append("'; only cf32_le (interleaved little-endian f32 IQ) is supported");
            },
            FileError::ZeroSampleRate => {
                text.append("sample rate resolved to 0 Hz; pass a valid --sample-rate");
            },
            FileError::Deviation(d) => {
                text.append("fm deviation resolved to ");
                push_hz(&mut text, *d);
                text.append(" Hz; pass a positive --fm-deviation");
            },
        }
        assert(text@ =~= error_text(*self));
        text
    }
}

/// Append a frequency in hertz.
fn push_hz(text: &mut String, milli_hz: i64)
    requires
        milli_hz > i64::MIN,
    ensures
        final(text)@ == old(text)@ + hz_text(milli_hz as int),
{
    let ghost before = text@;
    let size: u64 = if milli_hz < 0 {
        text.append("-");
        (-milli_hz) as u64
    } else {
        milli_hz as u64
    };
    push_decimal(text, size / 1000);
    let rest: u64 = size % 1000;
    if rest != 0 {
        text.append(".");
        push_decimal(text, rest / 100);
        if rest % 100 != 0 {
            push_decimal(text, rest / 10 % 10);
            if rest % 10 != 0 {
                push_decimal(text, rest % 10);
            }
        }
    }
    assert(text@ =~= before + hz_text(milli_hz as int));
}

} // verus!
