//! Recordings, sample streams and the bookkeeping of decoding.

use vstd::prelude::*;

use crate::band_scan::Signal;
use crate::decode_worker::{
    black, metrics_due, next_frame_buffer, rgb_bytes, snapshot_due, snapshot_path, timing_state,
    DecodeCursor, Slice,
};
use crate::float::{
    lemma_half_even, lemma_nearest_error, lemma_quotient_error, nearest, quotient, round_half_even,
    SINGLE,
};
use crate::laws::away;
use crate::reader::{
    gathering_left, lock_exit, same_tune, time_left, Delivery, Feed, FileReader, LiveReader,
    OverrunPolicy, PacketStep, ReadStep,
};
use crate::sigmf::{
    annotated, channel_parts, channels_parts, chunk_samples, configure, contains_text,
    default_channels, fraction_text, hz_text, occurs_at, recorded_channels, standard_from_label,
    uppercased, Annotation, FileChannel, FileConfig, FileError, SigmfMeta,
};
use crate::text::decimal;

verus! {

/// Where a description gives a sample rate, that is the rate of the recording, as a
/// 32-bit number, whatever was asked for and also where nothing was. Without one it is
/// what was asked for, and 100 MSPS where nothing was.
pub proof fn law_rate_of_a_recording(
    meta: Option<SigmfMeta>,
    asked_rate: Option<u32>,
    asked_deviation_milli_hz: Option<i64>,
    c: FileConfig,
)
    requires
        call_ensures(
            configure,
            (meta, asked_rate, asked_deviation_milli_hz),
            Ok::<FileConfig, FileError>(c),
        ),
    ensures
        ({
            let described = match meta {
                Some(m) => m.sample_rate,
                None => None,
            };
            &&& described matches Some(r) ==> c.sample_rate == r as int % 0x1_0000_0000
            &&& described is None ==> c.sample_rate == (match asked_rate {
                Some(r) => r,
                None => 100_000_000,
            })
        }),
{
}

/// Where a description gives a deviation, that is the deviation; without one it is what
/// was asked for, and 17 MHz where nothing was.
pub proof fn law_deviation_of_a_recording(
    meta: Option<SigmfMeta>,
    asked_rate: Option<u32>,
    asked_deviation_milli_hz: Option<i64>,
    c: FileConfig,
)
    requires
        call_ensures(
            configure,
            (meta, asked_rate, asked_deviation_milli_hz),
            Ok::<FileConfig, FileError>(c),
        ),
    ensures
        ({
            let described = match meta {
                Some(m) => m.deviation_milli_hz,
                None => None,
            };
            &&& described matches Some(d) ==> c.deviation_milli_hz == d
            &&& described is None ==> c.deviation_milli_hz == (match asked_deviation_milli_hz {
                Some(d) => d,
                None => 17_000_000_000,
            })
        }),
{
}

/// A recording is centred where its description says, and at 5.8 GHz where it does not.
pub proof fn law_centre_of_a_recording(
    meta: Option<SigmfMeta>,
    asked_rate: Option<u32>,
    asked_deviation_milli_hz: Option<i64>,
    c: FileConfig,
)
    requires
        call_ensures(
            configure,
            (meta, asked_rate, asked_deviation_milli_hz),
            Ok::<FileConfig, FileError>(c),
        ),
    ensures
        ({
            let described = match meta {
                Some(m) => m.center_milli_hz,
                None => None,
            };
            &&& described matches Some(f) ==> c.center_milli_hz == f
            &&& described is None ==> c.center_milli_hz == 5_800_000_000_000
        }),
{
}

/// A recording is refused exactly where its samples are of another type than `cf32_le`,
/// its rate is zero or its deviation is not above zero, and it is told which comes first.
pub proof fn law_recording_is_refused(
    meta: Option<SigmfMeta>,
    asked_rate: Option<u32>,
    asked_deviation_milli_hz: Option<i64>,
    r: Result<FileConfig, FileError>,
)
    requires
        call_ensures(configure, (meta, asked_rate, asked_deviation_milli_hz), r),
    ensures
        ({
            let datatype = match meta {
                Some(m) => m.datatype,
                None => None,
            };
            let rate = match meta {
                Some(m) => m.sample_rate,
                None => None,
            };
            let deviation = match meta {
                Some(m) => m.deviation_milli_hz,
                None => None,
            };
            let foreign = datatype matches Some(t) && t@ != "cf32_le"@;
            let no_rate = match rate {
                Some(x) => x as int % 0x1_0000_0000 == 0,
                None => asked_rate == Some(0u32),
            };
            let no_deviation = match deviation {
                Some(d) => d <= 0,
                None => asked_deviation_milli_hz matches Some(d) && d <= 0,
            };
            &&& r is Ok <==> !foreign && !no_rate && !no_deviation
            &&& foreign ==> (r matches Err(FileError::Datatype(t)) && t@ == datatype->0@)
            &&& !foreign && no_rate ==> (r matches Err(FileError::ZeroSampleRate))
            &&& !foreign && !no_rate && no_deviation ==> (r matches Err(FileError::Deviation(d)) && d
                == (match deviation {
                Some(x) => x,
                None => asked_deviation_milli_hz->0,
            }))
        }),
{
}

/// Whether a text holds another.
pub open spec fn holds(text: Seq<char>, word: Seq<char>) -> bool {
    exists|at: int|
        0 <= at <= text.len() - word.len() && #[trigger] text.subrange(at, at + word.len()) == word
}

proof fn lemma_holds(text: Seq<char>, word: Seq<char>)
    ensures
        holds(text, word) <==> crate::sigmf::occurs(text, word),
{
    if holds(text, word) {
        let at = choose|at: int|
            0 <= at <= text.len() - word.len() && #[trigger] text.subrange(at, at + word.len())
                == word;
        assert(occurs_at(text, word, at));
    }
    if crate::sigmf::occurs(text, word) {
        let at = choose|at: int| occurs_at(text, word, at);
        assert(text.subrange(at, at + word.len()) == word);
    }
}

/// A text is found in another where it stands anywhere in it.
pub proof fn law_text_is_found(hay: &str, needle: &str, r: bool)
    requires
        call_ensures(contains_text, (hay, needle), r),
    ensures
        r <==> holds(hay@, needle@),
{
    lemma_holds(hay@, needle@);
}

/// A label in capitals speaks of PAL, else of NTSC, else of video of either kind, or of
/// none.
pub proof fn law_label_tells_the_standard(upper: &str, r: Option<Option<Signal>>)
    requires
        call_ensures(standard_from_label, (upper,), r),
    ensures
        holds(upper@, "PAL"@) ==> r == Some(Some(Signal::Pal)),
        !holds(upper@, "PAL"@) && holds(upper@, "NTSC"@) ==> r == Some(Some(Signal::Ntsc)),
        !holds(upper@, "PAL"@) && !holds(upper@, "NTSC"@) && (holds(upper@, "ANALOG"@) || holds(
            upper@,
            "VIDEO"@,
        )) ==> r == Some(None::<Signal>),
        !holds(upper@, "PAL"@) && !holds(upper@, "NTSC"@) && !holds(upper@, "ANALOG"@) && !holds(
            upper@,
            "VIDEO"@,
        ) ==> r is None,
{
    lemma_holds(upper@, "PAL"@);
    lemma_holds(upper@, "NTSC"@);
    lemma_holds(upper@, "ANALOG"@);
    lemma_holds(upper@, "VIDEO"@);
}

/// Whether a label, in capitals, speaks of video.
pub open spec fn is_video(upper: Seq<char>) -> bool {
    holds(upper, "PAL"@) || holds(upper, "NTSC"@) || holds(upper, "ANALOG"@) || holds(
        upper,
        "VIDEO"@,
    )
}

/// Whether a channel is the one an annotation speaks of: halfway between its edges, under
/// its label, of the standard the label tells.
pub open spec fn is_channel_of(c: FileChannel, a: Annotation) -> bool {
    let upper = uppercased(a.label@);
    &&& c.label@ == a.label@
    &&& 2 * c.offset_milli_hz <= a.lower_milli_hz + a.upper_milli_hz < 2 * c.offset_milli_hz + 2
    &&& c.standard == (if holds(upper, "PAL"@) {
        Some(Signal::Pal)
    } else if holds(upper, "NTSC"@) {
        Some(Signal::Ntsc)
    } else {
        None
    })
}

/// What one annotation adds.
proof fn lemma_annotated(anns: Seq<Annotation>)
    requires
        anns.len() > 0,
    ensures
        ({
            let a = anns.last();
            let front = annotated(anns.drop_last());
            if is_video(uppercased(a.label@)) {
                &&& annotated(anns).len() == front.len() + 1
                &&& annotated(anns).drop_last() == front
                &&& forall|c: FileChannel| #[trigger]
                    channel_parts(c) == annotated(anns).last() ==> is_channel_of(c, a)
            } else {
                annotated(anns) == front
            }
        }),
{
    let upper = uppercased(anns.last().label@);
    lemma_holds(upper, "PAL"@);
    lemma_holds(upper, "NTSC"@);
    lemma_holds(upper, "ANALOG"@);
    lemma_holds(upper, "VIDEO"@);
    let front = annotated(anns.drop_last());
    if is_video(upper) {
        assert(annotated(anns).drop_last() =~= front);
    }
}

/// Whether the parts of a channel are those an annotation speaks of.
spec fn matches_annotation(parts: (Option<Signal>, int, Seq<char>), a: Annotation) -> bool {
    forall|c: FileChannel| #[trigger] channel_parts(c) == parts ==> is_channel_of(c, a)
}

/// Whether some annotation of video speaks of a channel.
spec fn told_by(parts: (Option<Signal>, int, Seq<char>), anns: Seq<Annotation>) -> bool {
    exists|i: int|
        0 <= i < anns.len() && is_video(uppercased((#[trigger] anns[i]).label@))
            && matches_annotation(parts, anns[i])
}

/// Whether an annotation has a channel.
spec fn told_in(all: Seq<(Option<Signal>, int, Seq<char>)>, a: Annotation) -> bool {
    exists|k: int| 0 <= k < all.len() && matches_annotation(#[trigger] all[k], a)
}

proof fn lemma_annotated_all(anns: Seq<Annotation>)
    ensures
        annotated(anns).len() <= anns.len(),
        forall|i: int|
            0 <= i < anns.len() && is_video(uppercased((#[trigger] anns[i]).label@)) ==> told_in(
                annotated(anns),
                anns[i],
            ),
        forall|k: int|
            0 <= k < annotated(anns).len() ==> told_by(#[trigger] annotated(anns)[k], anns),
    decreases anns.len(),
{
    if anns.len() > 0 {
        let front = anns.drop_last();
        let n = anns.len() - 1;
        lemma_annotated_all(front);
        lemma_annotated(anns);
        let all = annotated(anns);
        let some = annotated(front);
        assert forall|i: int|
            0 <= i < anns.len() && is_video(uppercased((#[trigger] anns[i]).label@)) implies told_in(
            all,
            anns[i],
        ) by {
            if i < n {
                assert(front[i] == anns[i]);
                assert(told_in(some, front[i]));
                let k = choose|k: int|
                    0 <= k < some.len() && matches_annotation(#[trigger] some[k], front[i]);
                assert(all[k] == some[k]);
            } else {
                assert(matches_annotation(all[all.len() - 1], anns[n]));
            }
        }
        assert forall|k: int| 0 <= k < all.len() implies told_by(#[trigger] all[k], anns) by {
            if k < some.len() {
                assert(all[k] == some[k]);
                assert(told_by(some[k], front));
                let i = choose|i: int|
                    0 <= i < front.len() && is_video(uppercased((#[trigger] front[i]).label@))
                        && matches_annotation(some[k], front[i]);
                assert(anns[i] == front[i]);
            } else {
                assert(anns[n] == anns.last());
                assert(matches_annotation(all[k], anns[n]));
            }
        }
    }
}

/// The channels a recording is configured with.
proof fn lemma_configured(
    meta: Option<SigmfMeta>,
    asked_rate: Option<u32>,
    asked_deviation_milli_hz: Option<i64>,
    c: FileConfig,
)
    requires
        call_ensures(
            configure,
            (meta, asked_rate, asked_deviation_milli_hz),
            Ok::<FileConfig, FileError>(c),
        ),
    ensures
        channels_parts(c.channels@) == recorded_channels(
            match meta {
                Some(m) => m.annotations@,
                None => Seq::empty(),
            },
        ),
{
}

/// A recording has a channel for every annotation that speaks of video and no others.
pub proof fn law_annotations_become_channels(
    m: SigmfMeta,
    asked_rate: Option<u32>,
    asked_deviation_milli_hz: Option<i64>,
    c: FileConfig,
    v: int,
)
    requires
        call_ensures(
            configure,
            (Some(m), asked_rate, asked_deviation_milli_hz),
            Ok::<FileConfig, FileError>(c),
        ),
        0 <= v < m.annotations@.len(),
        is_video(uppercased(m.annotations@[v].label@)),
    ensures
        c.channels@.len() <= m.annotations@.len(),
        exists|k: int|
            0 <= k < c.channels@.len() && is_channel_of(#[trigger] c.channels@[k], m.annotations@[v]),
        forall|k: int|
            0 <= k < c.channels@.len() ==> exists|i: int|
                0 <= i < m.annotations@.len() && is_video(
                    uppercased((#[trigger] m.annotations@[i]).label@),
                ) && is_channel_of(#[trigger] c.channels@[k], m.annotations@[i]),
{
    let anns = m.annotations@;
    let all = annotated(anns);
    lemma_annotated_all(anns);
    assert(told_in(all, anns[v]));
    let k = choose|k: int| 0 <= k < all.len() && matches_annotation(#[trigger] all[k], anns[v]);
    lemma_configured(Some(m), asked_rate, asked_deviation_milli_hz, c);
    assert(channels_parts(c.channels@) == all);
    assert(channel_parts(c.channels@[k]) == channels_parts(c.channels@)[k]);
    assert(is_channel_of(c.channels@[k], anns[v]));
    assert forall|k: int| 0 <= k < c.channels@.len() implies exists|i: int|
        0 <= i < anns.len() && is_video(uppercased((#[trigger] anns[i]).label@)) && is_channel_of(
            #[trigger] c.channels@[k],
            anns[i],
        ) by {
        assert(channel_parts(c.channels@[k]) == channels_parts(c.channels@)[k]);
        assert(told_by(all[k], anns));
        let i = choose|i: int|
            0 <= i < anns.len() && is_video(uppercased((#[trigger] anns[i]).label@))
                && matches_annotation(all[k], anns[i]);
        assert(is_channel_of(c.channels@[k], anns[i]));
    }
}

/// One more annotation at the end changes nothing but to add its channel at the end, where
/// it speaks of video.
pub proof fn law_annotations_keep_their_order(
    m: SigmfMeta,
    more: SigmfMeta,
    a: Annotation,
    asked_rate: Option<u32>,
    asked_deviation_milli_hz: Option<i64>,
    c: FileConfig,
    d: FileConfig,
    v: int,
)
    requires
        call_ensures(
            configure,
            (Some(m), asked_rate, asked_deviation_milli_hz),
            Ok::<FileConfig, FileError>(c),
        ),
        call_ensures(
            configure,
            (Some(more), asked_rate, asked_deviation_milli_hz),
            Ok::<FileConfig, FileError>(d),
        ),
        more.annotations@ == m.annotations@.push(a),
        0 <= v < m.annotations@.len(),
        is_video(uppercased(m.annotations@[v].label@)),
    ensures
        d.channels@.len() == c.channels@.len() + (if is_video(uppercased(a.label@)) {
            1int
        } else {
            0
        }),
        forall|k: int|
            0 <= k < c.channels@.len() ==> (#[trigger] d.channels@[k]).label@ == c.channels@[k].label@
                && d.channels@[k].offset_milli_hz == c.channels@[k].offset_milli_hz
                && d.channels@[k].standard == c.channels@[k].standard,
        is_video(uppercased(a.label@)) ==> is_channel_of(d.channels@.last(), a),
{
    let anns = m.annotations@;
    lemma_configured(Some(m), asked_rate, asked_deviation_milli_hz, c);
    lemma_configured(Some(more), asked_rate, asked_deviation_milli_hz, d);
    lemma_annotated_all(anns);
    assert(told_in(annotated(anns), anns[v]));
    lemma_one_more(anns, a, c, d);
}

proof fn lemma_one_more(anns: Seq<Annotation>, a: Annotation, c: FileConfig, d: FileConfig)
    requires
        annotated(anns).len() > 0,
        channels_parts(c.channels@) == recorded_channels(anns),
        channels_parts(d.channels@) == recorded_channels(anns.push(a)),
    ensures
        d.channels@.len() == c.channels@.len() + (if is_video(uppercased(a.label@)) {
            1int
        } else {
            0
        }),
        forall|k: int|
            0 <= k < c.channels@.len() ==> (#[trigger] d.channels@[k]).label@ == c.channels@[k].label@
                && d.channels@[k].offset_milli_hz == c.channels@[k].offset_milli_hz
                && d.channels@[k].standard == c.channels@[k].standard,
        is_video(uppercased(a.label@)) ==> is_channel_of(d.channels@.last(), a),
{
    let all = anns.push(a);
    lemma_annotated(all);
    assert(all.drop_last() =~= anns);
    assert(all.last() == a);
    let x = channels_parts(c.channels@);
    let y = channels_parts(d.channels@);
    assert(x == annotated(anns) && y == annotated(all));
    assert(x.len() == c.channels@.len() && y.len() == d.channels@.len());
    assert forall|k: int| 0 <= k < c.channels@.len() implies (
    #[trigger] d.channels@[k]).label@ == c.channels@[k].label@ && d.channels@[k].offset_milli_hz
        == c.channels@[k].offset_milli_hz && d.channels@[k].standard == c.channels@[k].standard by {
        assert(y[k] == x[k]);
        assert(y[k] == channel_parts(d.channels@[k]) && x[k] == channel_parts(c.channels@[k]));
    }
    if is_video(uppercased(a.label@)) {
        let n = d.channels@.len() - 1;
        assert(channel_parts(d.channels@[n]) == y[n]);
    }
}

/// A recording of which nothing says where its video is, is taken to have it 25 MHz to
/// either side of its centre, of whichever standard.
pub proof fn law_recording_without_annotations(
    meta: Option<SigmfMeta>,
    asked_rate: Option<u32>,
    asked_deviation_milli_hz: Option<i64>,
    c: FileConfig,
)
    requires
        call_ensures(
            configure,
            (meta, asked_rate, asked_deviation_milli_hz),
            Ok::<FileConfig, FileError>(c),
        ),
        meta matches Some(m) ==> forall|i: int|
            0 <= i < m.annotations@.len() ==> !is_video(
                uppercased((#[trigger] m.annotations@[i]).label@),
            ),
    ensures
        c.channels@.len() == 2,
        c.channels@[0].offset_milli_hz == -25_000_000_000,
        c.channels@[0].label@ == "Channel A"@,
        c.channels@[0].standard is None,
        c.channels@[1].offset_milli_hz == 25_000_000_000,
        c.channels@[1].label@ == "Channel B"@,
        c.channels@[1].standard is None,
{
    let anns = match meta {
        Some(m) => m.annotations@,
        None => Seq::empty(),
    };
    lemma_annotated_all(anns);
    lemma_configured(meta, asked_rate, asked_deviation_milli_hz, c);
    if annotated(anns).len() > 0 {
        let k = 0int;
        assert(told_by(annotated(anns)[k], anns));
        let i = choose|i: int|
            0 <= i < anns.len() && is_video(uppercased((#[trigger] anns[i]).label@))
                && matches_annotation(annotated(anns)[k], anns[i]);
        assert(false);
    }
    let parts = channels_parts(c.channels@);
    assert(parts.len() == c.channels@.len());
    assert(parts == recorded_channels(anns));
    assert(annotated(anns).len() == 0);
    assert(parts == default_channels());
    assert(default_channels().len() == 2);
    assert(parts[0] == channel_parts(c.channels@[0]));
    assert(parts[1] == channel_parts(c.channels@[1]));
}

/// What an annotation leaves out is at zero, or unknown.
pub proof fn law_annotation_is_filled_in(
    lower: Option<i64>,
    upper: Option<i64>,
    label: Option<String>,
    a: Annotation,
)
    requires
        call_ensures(Annotation::written, (lower, upper, label), a),
    ensures
        lower matches Some(f) ==> a.lower_milli_hz == f,
        lower is None ==> a.lower_milli_hz == 0,
        upper matches Some(f) ==> a.upper_milli_hz == f,
        upper is None ==> a.upper_milli_hz == 0,
        label matches Some(s) ==> a.label@ == s@,
        label is None ==> a.label@ == "Unknown"@,
{
}

/// A refusal says what is wrong.
pub proof fn law_refusals_say_why(e: &FileError, text: String)
    requires
        call_ensures(FileError::message, (e,), text),
    ensures
        *e matches FileError::Datatype(t) ==> text@ == "unsupported SigMF core:datatype '"@ + t@
            + "'; only cf32_le (interleaved little-endian f32 IQ) is supported"@,
        e is ZeroSampleRate ==> text@
            == "sample rate resolved to 0 Hz; pass a valid --sample-rate"@,
        *e matches FileError::Deviation(d) ==> text@ == "fm deviation resolved to "@ + hz_text(
            d as int,
        ) + " Hz; pass a positive --fm-deviation"@,
{
}

/// Whole hertz are written without a fraction, with a sign below zero.
pub proof fn law_whole_hertz_are_written(hz: int)
    ensures
        hz >= 0 ==> hz_text(1000 * hz) == decimal(hz),
        hz < 0 ==> hz_text(1000 * hz) == "-"@ + decimal(-hz),
{
    assert(Seq::<char>::empty() + decimal(hz) + Seq::<char>::empty() =~= decimal(hz));
    assert("-"@ + decimal(-hz) + Seq::<char>::empty() =~= "-"@ + decimal(-hz));
}

/// A recording is read a tenth of a second at a time.
pub proof fn law_chunks_are_a_tenth_of_a_second(sample_rate: u32, n: usize)
    requires
        call_ensures(chunk_samples, (sample_rate,), n),
    ensures
        10 * n <= sample_rate < 10 * n + 10,
{
}

/// The second overrun within a minute gives a channel up where the radio can be stepped
/// down; where it cannot, overruns end nothing.
pub proof fn law_second_overrun_gives_up(
    reader: &mut LiveReader,
    overrun: bool,
    since_clear_us: u64,
    s: PacketStep,
)
    requires
        call_ensures(LiveReader::on_packet, (reader, overrun, since_clear_us), s),
        old(reader).overruns < u64::MAX,
        old(reader).packets < u64::MAX,
        old(reader).check_every > 0,
    ensures
        s.exit == 0 || s.exit == 2,
        s.exit == 2 <==> overrun && old(reader).policy is StepDown && old(reader).overruns >= 1,
        s.exit == 0 && since_clear_us >= 60_000_000 ==> s.clear_overruns && final(reader).overruns
            == 0,
        s.exit == 0 && since_clear_us < 60_000_000 ==> !s.clear_overruns,
        !s.clear_overruns ==> final(reader).overruns == old(reader).overruns + (if overrun {
            1int
        } else {
            0
        }),
        final(reader).packets == old(reader).packets + 1,
        s.exit == 0 ==> (s.check_lock <==> final(reader).packets % old(reader).check_every == 0),
        s.exit == 2 ==> !s.check_lock && !s.clear_overruns,
        final(reader).policy == old(reader).policy,
        final(reader).check_every == old(reader).check_every,
{
}

/// Fields count as decoded where there are more of them than at the last look.
pub proof fn law_decoding_means_new_fields(reader: &mut LiveReader, fields: u64, r: bool)
    requires
        call_ensures(LiveReader::decoding, (reader, fields), r),
    ensures
        r <==> fields > old(reader).fields_seen,
        final(reader).fields_seen == fields,
        final(reader).packets == old(reader).packets,
        final(reader).overruns == old(reader).overruns,
{
}

/// A released lock ends the run as lost, and a held one does not.
pub proof fn law_released_lock_is_lost(released: bool, code: u8)
    requires
        call_ensures(lock_exit, (released,), code),
    ensures
        released ==> code == 1,
        !released ==> code == 0,
{
}

/// A chunk is marked as broken off where the one before it was dropped or samples were
/// lost; what was dropped is told with the next chunk that goes through, once.
pub proof fn law_holes_are_told(
    feed: &mut Feed,
    overran: bool,
    d: Delivery,
    broken: bool,
    stays: bool,
)
    requires
        call_ensures(Feed::breaks, (old(feed), overran), broken),
        call_ensures(Feed::offered, (feed, d), stays),
    ensures
        broken <==> overran || old(feed).pending,
        d is Sent ==> !final(feed).pending && stays,
        d is Full ==> final(feed).pending && stays,
        d is Closed ==> !stays && final(feed).pending == old(feed).pending,
{
}

/// A wait lasts to its limit; looking for the standard ends after a second and a half, or
/// as soon as there is enough.
pub proof fn law_waits_end(
    elapsed_us: u64,
    limit_us: u64,
    ready: bool,
    left: Option<u64>,
    gathering: Option<u64>,
)
    requires
        call_ensures(time_left, (elapsed_us, limit_us), left),
        call_ensures(gathering_left, (ready, elapsed_us), gathering),
    ensures
        left is None <==> elapsed_us >= limit_us,
        left matches Some(us) ==> elapsed_us + us == limit_us,
        gathering is None <==> ready || elapsed_us >= 1_500_000,
        gathering matches Some(us) ==> elapsed_us + us == 1_500_000,
{
}

/// Two packets are of one tune where their rates are the same and their centres no more
/// than a hertz apart.
pub proof fn law_same_tune(rate_hz: u32, first_rate_hz: u32, center: i64, first_center: i64, r: bool)
    requires
        call_ensures(same_tune, (rate_hz, first_rate_hz, center, first_center), r),
    ensures
        r <==> rate_hz == first_rate_hz && away(center as int, first_center as int) <= 1_000,
{
}

/// A recording starts over at its end, and the first chunk after that, and only that, says
/// so. Eight bytes make a sample; a recording that cannot be read stops.
pub proof fn law_recording_loops(reader: &mut FileReader, bytes: Option<usize>, s: ReadStep)
    requires
        call_ensures(FileReader::on_read, (reader, bytes), s),
    ensures
        bytes is None ==> s is Stop,
        bytes == Some(0usize) ==> s is Rewind && final(reader).wrapped,
        bytes matches Some(n) && n > 0 ==> !final(reader).wrapped && (s matches ReadStep::Chunk {
            samples,
            discontinuous,
        } && discontinuous == old(reader).wrapped && 8 * samples <= bytes->0 < 8 * samples + 8),
{
}

/// A decoder starts empty, keeps a thirtieth of a second of what it decoded, gives up on
/// more than a twelfth and then goes on with the last sixtieth.
pub proof fn law_decoder_starts(rate_hz: u32, is_pal: bool, c: DecodeCursor)
    requires
        call_ensures(DecodeCursor::new, (rate_hz, is_pal), c),
    ensures
        c.buffered == 0 && c.start == 0 && c.coordinate == 0 && c.frame_count == 0,
        !c.discontinuous,
        30 * c.compact_after <= rate_hz < 30 * c.compact_after + 30,
        12 * c.live_region_cap <= rate_hz < 12 * c.live_region_cap + 12,
        60 * c.keep_on_skip <= rate_hz < 60 * c.keep_on_skip + 60,
{
}

/// A field takes 310 lines of 15,625 a second in PAL and 262 of 15,734 in NTSC, to the
/// sample below and within single precision.
pub proof fn law_field_length(rate_hz: u32, is_pal: bool, c: DecodeCursor)
    requires
        call_ensures(DecodeCursor::new, (rate_hz, is_pal), c),
    ensures
        ({
            let (lines, per_second) = if is_pal {
                (310int, 15_625int)
            } else {
                (262int, 15_734int)
            };
            let n = c.min_samples_per_field as int;
            &&& 1_000_000 * (per_second * n) <= 1_000_001 * (lines * rate_hz)
            &&& 1_000_000 * (per_second * (n + 1)) >= 999_999 * (lines * rate_hz)
        }),
{
    let (lines, per) = if is_pal {
        (310int, 15_625int)
    } else {
        (262int, 15_734int)
    };
    let rate = rate_hz as int;
    let r1 = nearest(rate, SINGLE as int);
    lemma_nearest_error(rate, SINGLE as int);
    assert(16_777_216 * (r1 - rate) <= rate && 16_777_216 * (rate - r1) <= rate);
    let (q, p) = quotient(r1, per, SINGLE as int);
    lemma_quotient_error(r1, per, SINGLE as int);
    let x = r1 * p;
    let y = q * per;
    assert(16_777_216 * (y - x) <= x && 16_777_216 * (x - y) <= x);
    lemma_half_even(0, 1);
    assert(16_777_216 * x <= 16_777_217 * (rate * p) && 16_777_216 * x >= 16_777_215 * (rate * p))
        by (nonlinear_arith)
        requires
            x == r1 * p,
            p >= 1,
            16_777_216 * r1 <= 16_777_217 * rate,
            16_777_216 * r1 >= 16_777_215 * rate,
    ;
    let z = q * lines;
    assert(z * per == lines * y) by (nonlinear_arith)
        requires
            z == q * lines,
            y == q * per,
    ;
    assert(0 <= q) by (nonlinear_arith)
        requires
            q * per == y,
            y >= 0,
            per > 0,
    ;
    assert(0 <= z) by (nonlinear_arith)
        requires
            z == q * lines,
            0 <= q,
            0 <= lines,
    ;
    let m = nearest(z, SINGLE as int);
    lemma_nearest_error(z, SINGLE as int);
    assert(16_777_216 * (m - z) <= z && 16_777_216 * (z - m) <= z);
    let n = m / p;
    vstd::arithmetic::div_mod::lemma_fundamental_div_mod(m, p);
    let rp = rate * p;
    // n * p <= m < (n + 1) * p
    assert(n * p <= m < (n + 1) * p) by (nonlinear_arith)
        requires
            m == p * n + m % p,
            0 <= m % p < p,
    ;
    assert(16_777_216 * (m * per) <= 16_777_217 * (z * per) && 16_777_216 * (m * per) >= 16_777_215
        * (z * per)) by (nonlinear_arith)
        requires
            16_777_216 * m <= 16_777_217 * z,
            16_777_216 * m >= 16_777_215 * z,
            per > 0,
    ;
    assert(16_777_216 * (lines * y) <= 16_777_217 * (lines * x) && 16_777_216 * (lines * y)
        >= 16_777_215 * (lines * x)) by (nonlinear_arith)
        requires
            16_777_216 * y <= 16_777_217 * x,
            16_777_216 * y >= 16_777_215 * x,
            lines > 0,
    ;
    assert(16_777_216 * (lines * x) <= 16_777_217 * (lines * rp) && 16_777_216 * (lines * x)
        >= 16_777_215 * (lines * rp)) by (nonlinear_arith)
        requires
            16_777_216 * x <= 16_777_217 * rp,
            16_777_216 * x >= 16_777_215 * rp,
            lines > 0,
    ;
    assert(1_000_000 * (m * per) <= 1_000_001 * (lines * rp));
    assert(1_000_000 * (m * per) >= 999_999 * (lines * rp));
    let total = lines * rate;
    assert(lines * rp == total * p) by (nonlinear_arith)
        requires
            rp == rate * p,
            total == lines * rate,
    ;
    assert(1_000_000 * (per * n) <= 1_000_001 * total) by (nonlinear_arith)
        requires
            1_000_000 * (m * per) <= 1_000_001 * (total * p),
            n * p <= m,
            per > 0,
            p > 0,
    ;
    assert(1_000_000 * (per * (n + 1)) >= 999_999 * total) by (nonlinear_arith)
        requires
            1_000_000 * (m * per) >= 999_999 * (total * p),
            m < (n + 1) * p,
            per > 0,
            p > 0,
    ;
}

/// A break in the stream forgets what was buffered, and the next slice says so; taking
/// that slice is what ends the break.
pub proof fn law_breaks_are_told(c: &mut DecodeCursor, d: &mut DecodeCursor, r: Option<Slice>)
    requires
        call_ensures(DecodeCursor::handle_discontinuity, (c,), ()),
        call_ensures(DecodeCursor::next_slice, (d,), r),
    ensures
        final(c).buffered == 0 && final(c).start == 0 && final(c).discontinuous,
        final(c).coordinate == old(c).coordinate,
        final(c).frame_count == old(c).frame_count,
        r is Some <==> old(d).buffered - old(d).start >= old(d).min_samples_per_field,
        r matches Some(s) ==> s.start == old(d).start && s.coordinate == old(d).coordinate
            && s.discontinuous == old(d).discontinuous && !final(d).discontinuous,
        r is None ==> final(d).discontinuous == old(d).discontinuous,
        final(d).start == old(d).start && final(d).buffered == old(d).buffered
            && final(d).coordinate == old(d).coordinate,
{
}

/// Samples go in at the end and are decoded from the front; decoding moves the front and
/// its place in the stream alike.
pub proof fn law_samples_come_and_go(c: &mut DecodeCursor, d: &mut DecodeCursor, n: usize)
    requires
        call_ensures(DecodeCursor::appended, (c, n), ()),
        old(c).buffered + n <= usize::MAX,
        call_ensures(DecodeCursor::advance, (d, n), ()),
        old(d).wf(),
        n <= old(d).buffered - old(d).start,
        old(d).coordinate + n <= u64::MAX,
    ensures
        final(c).buffered == old(c).buffered + n,
        final(c).start == old(c).start && final(c).coordinate == old(c).coordinate,
        final(d).start == old(d).start + n,
        final(d).coordinate == old(d).coordinate + n,
        final(d).buffered == old(d).buffered,
{
}

/// Decoded samples leave the buffer once there are more of them than are kept, and all of
/// them do; those still to be decoded stay, at their place in the stream.
pub proof fn law_decoded_samples_leave(c: &mut DecodeCursor, drained: usize)
    requires
        old(c).wf(),
        call_ensures(DecodeCursor::compact, (c,), drained),
    ensures
        old(c).start > old(c).compact_after ==> drained == old(c).start && final(c).start == 0,
        old(c).start <= old(c).compact_after ==> drained == 0 && final(c).start == old(c).start,
        final(c).buffered == old(c).buffered - drained,
        final(c).coordinate == old(c).coordinate,
{
}

/// A decoder too far behind goes on with the newest samples, as many as it keeps then; one
/// that is not, skips nothing.
pub proof fn law_decoder_catches_up(c: &mut DecodeCursor, skipped: Option<usize>)
    requires
        old(c).wf(),
        old(c).coordinate + old(c).buffered <= u64::MAX,
        call_ensures(DecodeCursor::catch_up, (c,), skipped),
    ensures
        skipped is Some <==> old(c).buffered - old(c).start > old(c).live_region_cap,
        skipped is None ==> *final(c) == *old(c),
        skipped matches Some(n) ==> final(c).buffered - final(c).start == old(c).keep_on_skip
            && final(c).start == old(c).start + n && final(c).coordinate == old(c).coordinate + n
            && final(c).buffered == old(c).buffered,
{
}

/// Fields are counted from one; the first three are reported and then every thirtieth,
/// and the first three and the thirtieth to thirty-second are saved, where asked for.
pub proof fn law_fields_are_counted(
    c: &mut DecodeCursor,
    n: u64,
    debug: bool,
    frame: u64,
    reported: bool,
    saved: bool,
)
    requires
        call_ensures(DecodeCursor::count_field, (c,), n),
        old(c).frame_count < u64::MAX,
        call_ensures(metrics_due, (debug, frame), reported),
        call_ensures(snapshot_due, (debug, frame), saved),
    ensures
        n == old(c).frame_count + 1,
        final(c).frame_count == n,
        reported <==> debug && (frame < 4 || frame % 30 == 0),
        saved <==> debug && (frame < 4 || frame == 30 || frame == 31 || frame == 32),
{
}

/// A saved field's file is named by its frequency, to the nearest megahertz, and its
/// number.
pub proof fn law_snapshot_names(milli_hz: i64, frame: u64, path: String, mhz: int)
    requires
        call_ensures(snapshot_path, (milli_hz, frame), path),
        0 <= milli_hz,
        away(1_000_000_000 * mhz, milli_hz as int) < 500_000_000,
    ensures
        path@ == "fpv_frame_"@ + decimal(mhz) + "MHz_"@ + decimal(frame as int) + ".png"@,
{
    lemma_half_even(milli_hz as int, 1_000_000_000);
    assert(round_half_even(milli_hz as int, 1_000_000_000) == mhz);
    assert("fpv_frame_"@ + Seq::<char>::empty() =~= "fpv_frame_"@);
}

/// Three bytes make a pixel, red, green and blue.
pub proof fn law_bytes_of_pixels(pixels: &Vec<u32>, rgb: Vec<u8>, k: int)
    requires
        call_ensures(rgb_bytes, (pixels,), rgb),
        0 <= k < pixels@.len(),
    ensures
        rgb@.len() == 3 * pixels@.len(),
        65536 * rgb@[3 * k] + 256 * rgb@[3 * k + 1] + rgb@[3 * k + 2] == pixels@[k] as int
            % 0x1_000000,
{
    let p = pixels@[k] as int;
    assert((3 * k) / 3 == k && (3 * k + 1) / 3 == k && (3 * k + 2) / 3 == k);
    assert((3 * k) % 3 == 0 && (3 * k + 1) % 3 == 1 && (3 * k + 2) % 3 == 2);
    assert(65536 * (p / 65536 % 256) + 256 * (p / 256 % 256) + p % 256 == p % 0x1_000000);
}

/// The next field is decoded into the buffer that was displaced, else into a spare one,
/// else into a new black one.
pub proof fn law_buffers_are_reused(
    displaced: Option<Vec<u32>>,
    recycled: Option<Vec<u32>>,
    len: usize,
    buf: Vec<u32>,
    fresh: Vec<u32>,
    i: int,
)
    requires
        call_ensures(next_frame_buffer, (displaced, recycled, len), buf),
        call_ensures(black, (len,), fresh),
        0 <= i < len,
    ensures
        displaced matches Some(b) ==> buf@ == b@,
        displaced is None && recycled is Some ==> buf@ == recycled->0@,
        displaced is None && recycled is None ==> buf@ == fresh@,
        fresh@.len() == len && fresh@[i] == 0,
{
}

/// A decoder searches until it locks, and coasts while fields are missing.
pub proof fn law_timing_states(locked: bool, coasted_fields: u64, s: &'static str)
    requires
        call_ensures(timing_state, (locked, coasted_fields), s),
    ensures
        !locked ==> s@ == "Searching"@,
        locked && coasted_fields > 0 ==> s@ == "Coasting"@,
        locked && coasted_fields == 0 ==> s@ == "Tracking"@,
{
}

/// Dropped chunks are counted.
pub proof fn law_drops_are_counted(reader: &mut LiveReader)
    requires
        call_ensures(LiveReader::count_dropped, (reader,), ()),
        old(reader).dropped < u64::MAX,
    ensures
        final(reader).dropped == old(reader).dropped + 1,
        final(reader).packets == old(reader).packets,
        final(reader).overruns == old(reader).overruns,
        final(reader).fields_seen == old(reader).fields_seen,
{
}

/// A reader starts with nothing counted, and a feed with no hole.
pub proof fn law_readers_start(
    policy: OverrunPolicy,
    check_every: u64,
    live: LiveReader,
    feed: Feed,
    file: FileReader,
)
    requires
        call_ensures(LiveReader::new, (policy, check_every), live),
        call_ensures(Feed::new, (), feed),
        call_ensures(FileReader::new, (), file),
    ensures
        live.policy == policy && live.check_every == check_every,
        live.packets == 0 && live.overruns == 0 && live.fields_seen == 0 && live.dropped == 0,
        !feed.pending,
        !file.wrapped,
{
}

/// The fraction of a hertz is written to its last digit that is not zero: behind the point
/// stand the tenths, then the hundredths and thousandths as far as there are any.
pub proof fn law_fraction_of_a_hertz(tenths: int, hundredths: int, thousandths: int)
    requires
        0 <= tenths <= 9,
        0 <= hundredths <= 9,
        0 <= thousandths <= 9,
    ensures
        ({
            let t = 100 * tenths + 10 * hundredths + thousandths;
            let text = fraction_text(t);
            &&& t == 0 ==> text.len() == 0
            &&& thousandths > 0 ==> text == "."@ + decimal(tenths) + decimal(hundredths) + decimal(
                thousandths,
            )
            &&& thousandths == 0 && hundredths > 0 ==> text == "."@ + decimal(tenths) + decimal(
                hundredths,
            )
            &&& thousandths == 0 && hundredths == 0 && tenths > 0 ==> text == "."@ + decimal(tenths)
        }),
{
    let t = 100 * tenths + 10 * hundredths + thousandths;
    assert(t / 100 == tenths && t / 10 % 10 == hundredths && t % 10 == thousandths);
    assert(t % 100 == 10 * hundredths + thousandths);
}

/// A frequency below zero carries its sign into a saved field's name.
pub proof fn law_snapshot_names_below_zero(milli_hz: i64, frame: u64, path: String, mhz: int)
    requires
        call_ensures(snapshot_path, (milli_hz, frame), path),
        milli_hz < 0,
        away(1_000_000_000 * mhz, -milli_hz) < 500_000_000,
    ensures
        path@ == "fpv_frame_"@ + "-"@ + decimal(mhz) + "MHz_"@ + decimal(frame as int) + ".png"@,
{
    lemma_half_even(-milli_hz, 1_000_000_000);
    assert(round_half_even(-milli_hz, 1_000_000_000) == mhz);
}

} // verus!
