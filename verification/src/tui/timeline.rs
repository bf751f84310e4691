use vstd::prelude::*;

use crate::calendar::interval::context_duration;
use crate::calendar::{CalendarInterval, CalendarIntervalContext};
use crate::sorting::{lemma_sum_by_push, sum_by};
use vstd::string::StringSliceAdditionalSpecFns;

verus! {

/// A run of cells of an interval's timeline: the context observed there, by
/// its position in the interval, or unobserved time.
#[derive(Debug, Clone, Copy, PartialEq, Eq, Structural)]
pub struct TimelineSegment {
    pub width: usize,
    pub context: Option<usize>,
}

/// The smaller of two numbers.
pub open spec fn smaller(a: int, b: int) -> int {
    if a < b {
        a
    } else {
        b
    }
}

/// The timeline after the first `k` contexts: the observed time so far (at
/// most the interval's length), the column reached, and the segments drawn.
/// Each context ends at the column of the time observed up to its end, in
/// proportion to the interval's length; a context too short to reach a new
/// column draws nothing.
pub open spec fn timeline_prefix(
    contexts: Seq<CalendarIntervalContext>,
    total: int,
    width: int,
    k: nat,
) -> (int, int, Seq<TimelineSegment>)
    decreases k,
{
    if k == 0 {
        (0, 0, Seq::empty())
    } else {
        let (observed, cursor, segments) = timeline_prefix(contexts, total, width, (k - 1) as nat);
        let next_observed = smaller(observed + contexts[k - 1].duration, total);
        let finish_column = next_observed * width / total;
        if finish_column > cursor {
            (
                next_observed,
                finish_column,
                segments.push(
                    TimelineSegment { width: (finish_column - cursor) as usize, context: Some((k - 1) as usize) },
                ),
            )
        } else {
            (next_observed, cursor, segments)
        }
    }
}

/// The timeline of an interval drawn `width` cells wide: its contexts in
/// proportion to the interval's length, then the unobserved rest.
pub open spec fn timeline(interval: CalendarInterval, width: int) -> Seq<TimelineSegment> {
    let total = interval.finish - interval.start;
    if width == 0 {
        Seq::empty()
    } else if total == 0 {
        seq![TimelineSegment { width: width as usize, context: None }]
    } else {
        let (_, cursor, segments) = timeline_prefix(
            interval.contexts@,
            total,
            width,
            interval.contexts@.len(),
        );
        if cursor < width {
            segments.push(TimelineSegment { width: (width - cursor) as usize, context: None })
        } else {
            segments
        }
    }
}

/// The width of a segment.
pub open spec fn segment_width() -> spec_fn(TimelineSegment) -> int {
    |segment: TimelineSegment| segment.width as int
}

/// Part of an interval, in proportion, ends no further than its end.
pub proof fn lemma_proportion(part: int, total: int, width: int)
    requires
        0 <= part <= total,
        0 < total,
        0 <= width,
    ensures
        0 <= part * width / total <= width,
        part * width <= total * width,
{
    assert(part * width <= total * width) by (nonlinear_arith)
        requires
            0 <= part <= total,
            0 <= width,
    ;
    assert(total * width / total == width) by (nonlinear_arith)
        requires
            0 < total,
    ;
    assert(0 <= part * width / total <= total * width / total) by (nonlinear_arith)
        requires
            0 <= part * width <= total * width,
            0 < total,
    ;
}

/// The segments drawn so far fill the columns up to the one reached, which is
/// within the width, and each is at least one cell wide.
pub proof fn lemma_timeline_prefix(
    contexts: Seq<CalendarIntervalContext>,
    total: int,
    width: int,
    k: nat,
)
    requires
        0 < total,
        0 <= width <= usize::MAX,
        k <= contexts.len(),
    ensures
        0 <= timeline_prefix(contexts, total, width, k).0 <= total,
        0 <= timeline_prefix(contexts, total, width, k).1 <= width,
        sum_by(timeline_prefix(contexts, total, width, k).2, segment_width())
            == timeline_prefix(contexts, total, width, k).1,
        forall|i: int|
            0 <= i < timeline_prefix(contexts, total, width, k).2.len() ==> #[trigger] timeline_prefix(
                contexts,
                total,
                width,
                k,
            ).2[i].width > 0,
    decreases k,
{
    if k > 0 {
        lemma_timeline_prefix(contexts, total, width, (k - 1) as nat);
        let (observed, cursor, segments) = timeline_prefix(contexts, total, width, (k - 1) as nat);
        let next_observed = smaller(observed + contexts[k - 1].duration, total);
        lemma_proportion(next_observed, total, width);
        let finish_column = next_observed * width / total;
        if finish_column > cursor {
            let segment = TimelineSegment {
                width: (finish_column - cursor) as usize,
                context: Some((k - 1) as usize),
            };
            lemma_sum_by_push(segments, segment, segment_width());
        }
    }
}

/// The timeline fills exactly the width, with segments of at least one cell.
pub proof fn lemma_timeline_fills_width(interval: CalendarInterval, width: int)
    requires
        interval.start <= interval.finish,
        0 <= width <= usize::MAX,
    ensures
        sum_by(timeline(interval, width), segment_width()) == width,
        forall|i: int|
            0 <= i < timeline(interval, width).len() ==> #[trigger] timeline(interval, width)[i].width > 0,
{
    let total = interval.finish - interval.start;
    if width == 0 {
    } else if total == 0 {
        let segment = TimelineSegment { width: width as usize, context: None };
        lemma_sum_by_push(Seq::empty(), segment, segment_width());
        assert(Seq::<TimelineSegment>::empty().push(segment) =~= seq![segment]);
    } else {
        let contexts = interval.contexts@;
        lemma_timeline_prefix(contexts, total, width, contexts.len());
        let (_, cursor, segments) = timeline_prefix(contexts, total, width, contexts.len());
        if cursor < width {
            lemma_sum_by_push(
                segments,
                TimelineSegment { width: (width - cursor) as usize, context: None },
                segment_width(),
            );
        }
    }
}

/// The time observed in the first `k` contexts.
pub open spec fn elapsed(contexts: Seq<CalendarIntervalContext>, k: int) -> int {
    sum_by(contexts.take(k), context_duration())
}

/// The column, out of `width`, at which the part `part` of `total` ends.
pub open spec fn column_of(part: int, total: int, width: int) -> int {
    smaller(part, total) * width / total
}

/// The segments name contexts in increasing order, each ending at the column
/// where the time observed up to the end of its context ends.
pub open spec fn segments_follow_contexts(
    segments: Seq<TimelineSegment>,
    contexts: Seq<CalendarIntervalContext>,
    total: int,
    width: int,
    bound: int,
) -> bool {
    &&& forall|i: int|
        0 <= i < segments.len() ==> (#[trigger] segments[i]).context is Some && segments[i].context->0
            < bound && sum_by(segments.take(i + 1), segment_width()) == column_of(
            elapsed(contexts, segments[i].context->0 + 1),
            total,
            width,
        )
    &&& forall|i: int, j: int|
        0 <= i < j < segments.len() ==> (#[trigger] segments[i]).context->0 < (
        #[trigger] segments[j]).context->0
}

proof fn lemma_timeline_prefix_follows(
    contexts: Seq<CalendarIntervalContext>,
    total: int,
    width: int,
    k: nat,
)
    requires
        0 < total,
        0 <= width <= usize::MAX,
        k <= contexts.len() <= usize::MAX,
    ensures
        timeline_prefix(contexts, total, width, k).0 == smaller(elapsed(contexts, k as int), total),
        segments_follow_contexts(timeline_prefix(contexts, total, width, k).2, contexts, total, width, k as int),
    decreases k,
{
    if k > 0 {
        let j = (k - 1) as nat;
        lemma_timeline_prefix_follows(contexts, total, width, j);
        lemma_timeline_prefix(contexts, total, width, j);
        let (observed, cursor, segments) = timeline_prefix(contexts, total, width, j);
        let duration = contexts[j as int].duration;
        assert(contexts.take(k as int).drop_last() =~= contexts.take(j as int));
        assert(contexts.take(k as int).last() == contexts[j as int]);
        assert(elapsed(contexts, k as int) == elapsed(contexts, j as int) + duration);
        let next_observed = smaller(observed + duration, total);
        assert(next_observed == smaller(elapsed(contexts, k as int), total));
        let finish_column = next_observed * width / total;
        lemma_proportion(next_observed, total, width);
        if finish_column > cursor {
            let segment = TimelineSegment { width: (finish_column - cursor) as usize, context: Some(j as usize) };
            let longer = segments.push(segment);
            lemma_sum_by_push(segments, segment, segment_width());
            assert(segment.context->0 == j);
            assert(longer[segments.len() as int] == segment);
            assert(sum_by(longer, segment_width()) == finish_column);
            assert(longer.take(longer.len() as int) =~= longer);
            assert forall|i: int| 0 <= i < longer.len() implies (#[trigger] longer[i]).context is Some
                && longer[i].context->0 < k && sum_by(longer.take(i + 1), segment_width()) == column_of(
                elapsed(contexts, longer[i].context->0 + 1),
                total,
                width,
            ) by {
                if i < segments.len() {
                    assert(longer[i] == segments[i]);
                    assert(longer.take(i + 1) =~= segments.take(i + 1));
                }
            }
            assert forall|a: int, b: int| 0 <= a < b < longer.len() implies (#[trigger] longer[a]).context->0
                < (#[trigger] longer[b]).context->0 by {
                assert(longer[a] == segments[a]);
                if b < segments.len() {
                    assert(longer[b] == segments[b]);
                }
            }
        }
    }
}

/// The timeline draws the contexts in their order: a segment that names a
/// context names one of the interval's, later segments name later contexts,
/// and each such segment ends at the column, in proportion to the interval's
/// length, where the time observed up to the end of its context ends (at most
/// the interval's length). Only the last segment can be unobserved time.
pub proof fn lemma_timeline_follows_contexts(interval: CalendarInterval, width: int)
    requires
        interval.start <= interval.finish,
        0 <= width <= usize::MAX,
    ensures
        forall|i: int|
            0 <= i < timeline(interval, width).len() && (#[trigger] timeline(interval, width)[i]).context is Some
                ==> timeline(interval, width)[i].context->0 < interval.contexts@.len() && sum_by(
                timeline(interval, width).take(i + 1),
                segment_width(),
            ) == column_of(
                elapsed(interval.contexts@, timeline(interval, width)[i].context->0 + 1),
                interval.finish - interval.start,
                width,
            ),
        forall|i: int, j: int|
            0 <= i < j < timeline(interval, width).len() && (#[trigger] timeline(interval, width)[i]).context is Some
                && (#[trigger] timeline(interval, width)[j]).context is Some ==> timeline(interval, width)[i].context->0
                < timeline(interval, width)[j].context->0,
        forall|i: int|
            0 <= i < timeline(interval, width).len() - 1 ==> (#[trigger] timeline(interval, width)[i]).context is Some,
{
    let total = interval.finish - interval.start;
    let tl = timeline(interval, width);
    if width != 0 && total != 0 {
        let contexts = interval.contexts@;
        assert(contexts.len() == interval.contexts.len());
        lemma_timeline_prefix_follows(contexts, total, width, contexts.len());
        let (_, cursor, segments) = timeline_prefix(contexts, total, width, contexts.len());
        assert forall|i: int| 0 <= i < segments.len() implies #[trigger] tl[i] == segments[i] && tl.take(i + 1)
            == segments.take(i + 1) by {
            assert(tl.take(i + 1) =~= segments.take(i + 1));
        }
        assert forall|i: int|
            0 <= i < tl.len() && (#[trigger] tl[i]).context is Some implies tl[i].context->0 < contexts.len()
                && sum_by(tl.take(i + 1), segment_width()) == column_of(
                elapsed(contexts, tl[i].context->0 + 1),
                total,
                width,
            ) by {
            assert(tl.take(i + 1) == segments.take(i + 1));
        }
        assert forall|i: int, j: int|
            0 <= i < j < tl.len() && (#[trigger] tl[i]).context is Some && (#[trigger] tl[j]).context is Some implies tl[i].context->0
                < tl[j].context->0 by {
            assert(tl[i] == segments[i]);
            assert(tl[j] == segments[j]);
        }
    }
}

/// Lays out the timeline of an interval drawn `width` cells wide: see
/// `timeline`.
pub fn timeline_segments(interval: &CalendarInterval, width: usize) -> (segments: Vec<TimelineSegment>)
    requires
        interval.start <= interval.finish,
    ensures
        segments@ == timeline(*interval, width as int),
{
    if width == 0 {
        return Vec::new();
    }
    let total = (interval.finish - interval.start) as u128;
    if total == 0 {
        let mut segments = Vec::new();
        segments.push(TimelineSegment { width, context: None });
        proof {
            assert(segments@ =~= seq![TimelineSegment { width, context: None }]);
        }
        return segments;
    }
    let ghost contexts = interval.contexts@;
    let mut segments: Vec<TimelineSegment> = Vec::new();
    let mut cursor: usize = 0;
    let mut observed: u128 = 0;
    for k in 0..interval.contexts.len()
        invariant
            contexts == interval.contexts@,
            total == interval.finish - interval.start,
            0 < total <= u64::MAX,
            width > 0,
            timeline_prefix(contexts, total as int, width as int, k as nat) == (
                observed as int,
                cursor as int,
                segments@,
            ),
    {
        proof {
            lemma_timeline_prefix(contexts, total as int, width as int, k as nat);
        }
        let duration = interval.contexts[k].duration as u128;
        let sum = observed + duration;
        observed = if sum < total {
            sum
        } else {
            total
        };
        proof {
            lemma_proportion(observed as int, total as int, width as int);
            assert(observed * (width as u128) <= u64::MAX * u64::MAX) by (nonlinear_arith)
                requires
                    observed <= u64::MAX,
                    width <= u64::MAX,
            ;
        }
        let finish_column = ((observed * (width as u128)) / total) as usize;
        if finish_column > cursor {
            segments.push(TimelineSegment { width: finish_column - cursor, context: Some(k) });
            cursor = finish_column;
        }
    }
    proof {
        lemma_timeline_prefix(contexts, total as int, width as int, contexts.len());
    }
    if cursor < width {
        segments.push(TimelineSegment { width: width - cursor, context: None });
    }
    segments
}

/// A color of the terminal, by its red, green and blue parts.
#[derive(Debug, Clone, Copy, PartialEq, Eq, Structural)]
pub struct Rgb {
    pub red: u8,
    pub green: u8,
    pub blue: u8,
}

/// The number of colors that tell applications apart.
pub const APPLICATION_COLOR_COUNT: usize = 16;

/// The colors that tell applications apart, by position.
pub open spec fn palette(index: int) -> Rgb {
    if index == 0 {
        Rgb { red: 122, green: 162, blue: 247 }
    } else if index == 1 {
        Rgb { red: 125, green: 207, blue: 255 }
    } else if index == 2 {
        Rgb { red: 115, green: 218, blue: 202 }
    } else if index == 3 {
        Rgb { red: 42, green: 195, blue: 222 }
    } else if index == 4 {
        Rgb { red: 158, green: 206, blue: 106 }
    } else if index == 5 {
        Rgb { red: 224, green: 175, blue: 104 }
    } else if index == 6 {
        Rgb { red: 255, green: 158, blue: 100 }
    } else if index == 7 {
        Rgb { red: 247, green: 118, blue: 142 }
    } else if index == 8 {
        Rgb { red: 187, green: 154, blue: 247 }
    } else if index == 9 {
        Rgb { red: 157, green: 124, blue: 216 }
    } else if index == 10 {
        Rgb { red: 137, green: 221, blue: 255 }
    } else if index == 11 {
        Rgb { red: 13, green: 185, blue: 215 }
    } else if index == 12 {
        Rgb { red: 65, green: 166, blue: 181 }
    } else if index == 13 {
        Rgb { red: 219, green: 75, blue: 75 }
    } else if index == 14 {
        Rgb { red: 255, green: 0, blue: 124 }
    } else {
        Rgb { red: 26, green: 188, blue: 156 }
    }
}

/// The palette's colors are distinct.
pub proof fn lemma_palette_distinct()
    ensures
        forall|i: int, j: int|
            0 <= i < j < APPLICATION_COLOR_COUNT ==> #[trigger] palette(i) != #[trigger] palette(j),
{
}

/// The color at `index` of the palette.
pub fn application_color(index: usize) -> (color: Rgb)
    requires
        index < APPLICATION_COLOR_COUNT,
    ensures
        color == palette(index as int),
{
    match index {
        0 => Rgb { red: 122, green: 162, blue: 247 },
        1 => Rgb { red: 125, green: 207, blue: 255 },
        2 => Rgb { red: 115, green: 218, blue: 202 },
        3 => Rgb { red: 42, green: 195, blue: 222 },
        4 => Rgb { red: 158, green: 206, blue: 106 },
        5 => Rgb { red: 224, green: 175, blue: 104 },
        6 => Rgb { red: 255, green: 158, blue: 100 },
        7 => Rgb { red: 247, green: 118, blue: 142 },
        8 => Rgb { red: 187, green: 154, blue: 247 },
        9 => Rgb { red: 157, green: 124, blue: 216 },
        10 => Rgb { red: 137, green: 221, blue: 255 },
        11 => Rgb { red: 13, green: 185, blue: 215 },
        12 => Rgb { red: 65, green: 166, blue: 181 },
        13 => Rgb { red: 219, green: 75, blue: 75 },
        14 => Rgb { red: 255, green: 0, blue: 124 },
        _ => Rgb { red: 26, green: 188, blue: 156 },
    }
}

/// An ASCII upper-case letter in lower case; any other byte unchanged.
pub open spec fn lowercase_byte(byte: u8) -> u8 {
    if 65 <= byte <= 90 {
        (byte + 32) as u8
    } else {
        byte
    }
}

/// The FNV-1a hash of the bytes, each taken in ASCII lower case.
pub open spec fn name_hash(bytes: Seq<u8>) -> u64
    decreases bytes.len(),
{
    if bytes.len() == 0 {
        0xcbf2_9ce4_8422_2325u64
    } else {
        (name_hash(bytes.drop_last()) ^ (lowercase_byte(bytes.last()) as u64)).wrapping_mul(
            0x0000_0100_0000_01b3u64,
        )
    }
}

/// The hash with its bits mixed, so that similar names spread over the
/// palette.
pub open spec fn mixed_hash(hash: u64) -> u64 {
    let first = hash ^ (hash >> 30u64);
    let second = first.wrapping_mul(0xbf58_476d_1ce4_e5b9u64);
    let third = second ^ (second >> 27u64);
    let fourth = third.wrapping_mul(0x94d0_49bb_1331_11ebu64);
    fourth ^ (fourth >> 31u64)
}

/// The palette position for an application, by the bytes of its executable's
/// name.
pub open spec fn color_index_of(bytes: Seq<u8>) -> int {
    (mixed_hash(name_hash(bytes)) % (APPLICATION_COLOR_COUNT as u64)) as int
}

/// The palette position for the application of the executable.
pub fn application_color_index(executable: &str) -> (index: usize)
    ensures
        index == color_index_of(executable.spec_bytes()),
        index < APPLICATION_COLOR_COUNT,
{
    let bytes = executable.as_bytes();
    let mut hash: u64 = 0xcbf2_9ce4_8422_2325;
    for i in 0..bytes.len()
        invariant
            bytes@ == executable.spec_bytes(),
            hash == name_hash(bytes@.take(i as int)),
    {
        let byte = bytes[i];
        let lower = if byte >= 65 && byte <= 90 {
            byte + 32
        } else {
            byte
        };
        hash = (hash ^ (lower as u64)).wrapping_mul(0x0000_0100_0000_01b3);
        proof {
            assert(bytes@.take(i + 1).drop_last() =~= bytes@.take(i as int));
        }
    }
    proof {
        assert(bytes@.take(bytes@.len() as int) =~= bytes@);
    }
    hash = hash ^ (hash >> 30);
    hash = hash.wrapping_mul(0xbf58_476d_1ce4_e5b9);
    hash = hash ^ (hash >> 27);
    hash = hash.wrapping_mul(0x94d0_49bb_1331_11eb);
    hash = hash ^ (hash >> 31);
    (hash % (APPLICATION_COLOR_COUNT as u64)) as usize
}

/// The color for the application of the executable.
pub fn color_for_executable(executable: &str) -> (color: Rgb)
    ensures
        color == palette(color_index_of(executable.spec_bytes())),
{
    application_color(application_color_index(executable))
}

/// Names that differ only in the case of ASCII letters get the same color.
pub proof fn lemma_color_ignores_case(a: Seq<u8>, b: Seq<u8>)
    requires
        a.len() == b.len(),
        forall|i: int| 0 <= i < a.len() ==> #[trigger] lowercase_byte(a[i]) == lowercase_byte(b[i]),
    ensures
        color_index_of(a) == color_index_of(b),
{
    lemma_hash_ignores_case(a, b);
}

/// Names that differ only in the case of ASCII letters have the same hash.
pub proof fn lemma_hash_ignores_case(a: Seq<u8>, b: Seq<u8>)
    requires
        a.len() == b.len(),
        forall|i: int| 0 <= i < a.len() ==> #[trigger] lowercase_byte(a[i]) == lowercase_byte(b[i]),
    ensures
        name_hash(a) == name_hash(b),
    decreases a.len(),
{
    if a.len() > 0 {
        assert forall|i: int| 0 <= i < a.drop_last().len() implies #[trigger] lowercase_byte(
            a.drop_last()[i],
        ) == lowercase_byte(b.drop_last()[i]) by {
            assert(lowercase_byte(a[i]) == lowercase_byte(b[i]));
        }
        lemma_hash_ignores_case(a.drop_last(), b.drop_last());
        assert(lowercase_byte(a[a.len() - 1]) == lowercase_byte(b[b.len() - 1]));
    }
}

} // verus!
