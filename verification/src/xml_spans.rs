//! Xml ids inside attribute values: `%(xml_id)d` format references, and the segments of a
//! `groups` list.
//!
//! Values are scanned in the source text rather than decoded, so that the spans stay aligned
//! with the source even when the value holds an entity like `&amp;`.
use vstd::multiset::Multiset;
use vstd::prelude::*;

use crate::text::{boundary, lemma_ascii_boundary, utf8};

verus! {

/// A span of bytes of the source.
#[derive(Clone, Copy, PartialEq, Eq, Structural, Debug)]
pub struct ByteSpan {
    pub start: usize,
    pub end: usize,
}

/// Position of the first `byte` at or after `from`, `end` when there is none before it.
pub open spec fn next_byte(bytes: Seq<u8>, from: int, end: int, byte: u8) -> int
    decreases end - from,
{
    if from >= end || bytes[from] == byte {
        from
    } else {
        next_byte(bytes, from + 1, end, byte)
    }
}

/// Whether a byte may follow the `)` of a format reference.
pub open spec fn is_conversion(byte: u8) -> bool {
    byte == 0x64 || byte == 0x73 || byte == 0x69  // d, s or i

}

/// Position of the `)` of the reference `%(xml_id)d` that starts at `from`, when one does.
pub open spec fn format_close(bytes: Seq<u8>, from: int, end: int) -> Option<int> {
    let close = next_byte(bytes, from + 2, end, 0x29);
    if from + 2 <= end && bytes[from] == 0x25 && bytes[from + 1] == 0x28 && close + 1 < end
        && is_conversion(bytes[close + 1]) {
        Some(close)
    } else {
        None
    }
}

/// The xml ids of the format references between two positions, leftmost first and without
/// overlap, each as the span between `%(` and `)`.
pub open spec fn format_spans(bytes: Seq<u8>, from: int, end: int) -> Seq<ByteSpan>
    decreases end - from,
{
    if from >= end {
        Seq::empty()
    } else {
        match format_close(bytes, from, end) {
            Some(close) => if from + 2 <= close {
                seq![ByteSpan { start: (from + 2) as usize, end: close as usize }] + format_spans(
                    bytes,
                    close + 2,
                    end,
                )
            } else {
                Seq::empty()
            },
            None => format_spans(bytes, from + 1, end),
        }
    }
}

/// White space of XML.
pub open spec fn is_xml_space(byte: u8) -> bool {
    byte == 0x20 || byte == 0x09 || byte == 0x0a || byte == 0x0d
}

/// What may stand before the xml id of a group: white space, and the `!` that negates it.
pub open spec fn is_group_lead(byte: u8) -> bool {
    is_xml_space(byte) || byte == 0x21
}

/// First position at or after `from` that holds more than the lead of a group, `end` when there
/// is none.
pub open spec fn skip_group_lead(bytes: Seq<u8>, from: int, end: int) -> int
    decreases end - from,
{
    if from < end && is_group_lead(bytes[from]) {
        skip_group_lead(bytes, from + 1, end)
    } else {
        from
    }
}

/// Last position at or before `end`, not before `from`, that white space does not precede.
pub open spec fn skip_space_back(bytes: Seq<u8>, from: int, end: int) -> int
    decreases end - from,
{
    if from < end && is_xml_space(bytes[end - 1]) {
        skip_space_back(bytes, from, end - 1)
    } else {
        end
    }
}

/// The xml id of one segment of a `groups` list, without the `!` and the padding around it.
pub open spec fn group_span(bytes: Seq<u8>, from: int, end: int) -> ByteSpan {
    let start = skip_group_lead(bytes, from, end);
    ByteSpan { start: start as usize, end: skip_space_back(bytes, start, end) as usize }
}

/// The xml ids of a `groups` list: one for each segment between commas that holds any.
pub open spec fn group_spans(bytes: Seq<u8>, from: int, end: int) -> Seq<ByteSpan>
    decreases end - from,
{
    let comma = next_byte(bytes, from, end, 0x2c);
    let span = group_span(bytes, from, comma);
    let first = if span.start < span.end {
        seq![span]
    } else {
        Seq::empty()
    };
    if from <= comma < end {
        first + group_spans(bytes, comma + 1, end)
    } else {
        first
    }
}

pub proof fn lemma_next_byte(bytes: Seq<u8>, from: int, end: int, byte: u8)
    requires
        from <= end,
    ensures
        from <= next_byte(bytes, from, end, byte) <= end,
        next_byte(bytes, from, end, byte) < end ==> bytes[next_byte(bytes, from, end, byte)]
            == byte,
        forall|j: int| from <= j < next_byte(bytes, from, end, byte) ==> bytes[j] != byte,
    decreases end - from,
{
    if from < end && bytes[from] != byte {
        lemma_next_byte(bytes, from + 1, end, byte);
    }
}

pub proof fn lemma_skip_group_lead(bytes: Seq<u8>, from: int, end: int)
    requires
        from <= end,
    ensures
        from <= skip_group_lead(bytes, from, end) <= end,
        skip_group_lead(bytes, from, end) < end ==> !is_group_lead(
            bytes[skip_group_lead(bytes, from, end)],
        ),
        forall|j: int|
            from <= j < skip_group_lead(bytes, from, end) ==> is_group_lead(#[trigger] bytes[j]),
    decreases end - from,
{
    if from < end && is_group_lead(bytes[from]) {
        lemma_skip_group_lead(bytes, from + 1, end);
    }
}

pub proof fn lemma_skip_space_back(bytes: Seq<u8>, from: int, end: int)
    requires
        from <= end,
    ensures
        from <= skip_space_back(bytes, from, end) <= end,
        from < skip_space_back(bytes, from, end) ==> !is_xml_space(
            bytes[skip_space_back(bytes, from, end) - 1],
        ),
        forall|j: int|
            skip_space_back(bytes, from, end) <= j < end ==> is_xml_space(#[trigger] bytes[j]),
    decreases end - from,
{
    if from < end && is_xml_space(bytes[end - 1]) {
        lemma_skip_space_back(bytes, from, end - 1);
    }
}

/// Whether a span is the xml id of a format reference between two positions.
pub open spec fn is_format_span(bytes: Seq<u8>, from: int, end: int, span: ByteSpan) -> bool {
    &&& from + 2 <= span.start <= span.end
    &&& span.end + 1 < end
    &&& bytes[span.start - 2] == 0x25
    &&& bytes[span.start - 1] == 0x28
    &&& bytes[span.end as int] == 0x29
    &&& is_conversion(bytes[span.end + 1])
    &&& forall|j: int| span.start <= j < span.end ==> bytes[j] != 0x29
}

/// Every format reference found is one: it stands in the scanned bytes as `%(xml_id)d`, `%(xml_id)s`
/// or `%(xml_id)i`, the span being the xml id alone; references come in order, without overlap.
pub proof fn format_spans_are_references(bytes: Seq<u8>, from: int, end: int)
    requires
        0 <= from,
        end <= bytes.len(),
        end <= usize::MAX,
    ensures
        forall|k: int|
            0 <= k < format_spans(bytes, from, end).len() ==> is_format_span(
                bytes,
                from,
                end,
                #[trigger] format_spans(bytes, from, end)[k],
            ),
        forall|j: int, k: int|
            0 <= j < k < format_spans(bytes, from, end).len() ==> (#[trigger] format_spans(
                bytes,
                from,
                end,
            )[j]).end + 2 <= (#[trigger] format_spans(bytes, from, end)[k]).start - 2,
    decreases end - from,
{
    if from < end {
        match format_close(bytes, from, end) {
            Some(close) => {
                lemma_next_byte(bytes, from + 2, end, 0x29);
                let rest = format_spans(bytes, close + 2, end);
                format_spans_are_references(bytes, close + 2, end);
                let all = format_spans(bytes, from, end);
                let first = ByteSpan { start: (from + 2) as usize, end: close as usize };
                assert(all =~= seq![first] + rest);
                assert forall|k: int| 0 <= k < all.len() implies is_format_span(
                    bytes,
                    from,
                    end,
                    #[trigger] all[k],
                ) by {
                    if k > 0 {
                        assert(all[k] == rest[k - 1]);
                        assert(is_format_span(bytes, close + 2, end, rest[k - 1]));
                    }
                }
                assert forall|j: int, k: int| 0 <= j < k < all.len() implies (
                #[trigger] all[j]).end + 2 <= (#[trigger] all[k]).start - 2 by {
                    assert(all[k] == rest[k - 1]);
                    assert(is_format_span(bytes, close + 2, end, rest[k - 1]));
                    if j > 0 {
                        assert(all[j] == rest[j - 1]);
                    }
                }
            },
            None => {
                format_spans_are_references(bytes, from + 1, end);
                let rest = format_spans(bytes, from + 1, end);
                assert forall|k: int| 0 <= k < rest.len() implies is_format_span(
                    bytes,
                    from,
                    end,
                    #[trigger] rest[k],
                ) by {
                    assert(is_format_span(bytes, from + 1, end, rest[k]));
                }
            },
        }
    }
}

/// Finds the xml ids of the format references between two positions.
pub fn find_format_spans(bytes: &[u8], from: usize, end: usize) -> (res: Vec<ByteSpan>)
    requires
        end <= bytes@.len(),
    ensures
        res@ == format_spans(bytes@, from as int, end as int),
{
    let mut res: Vec<ByteSpan> = Vec::new();
    let mut i: usize = from;
    assert(res@ + format_spans(bytes@, i as int, end as int) =~= format_spans(
        bytes@,
        from as int,
        end as int,
    ));
    while i < end && end - i > 3
        invariant
            end <= bytes@.len(),
            from <= i,
            from < end ==> i <= end,
            res@ + format_spans(bytes@, i as int, end as int) == format_spans(
                bytes@,
                from as int,
                end as int,
            ),
        decreases end - i,
    {
        if bytes[i] == 0x25 && bytes[i + 1] == 0x28 {
            let close = find_byte(bytes, i + 2, end, 0x29);
            if close < end && end - close > 1 && (bytes[close + 1] == 0x64 || bytes[close + 1]
                == 0x73 || bytes[close + 1] == 0x69) {
                let span = ByteSpan { start: i + 2, end: close };
                assert(format_close(bytes@, i as int, end as int) == Some(close as int));
                assert(res@.push(span) + format_spans(bytes@, close + 2, end as int) =~= res@ + (
                seq![span] + format_spans(bytes@, close + 2, end as int)));
                res.push(span);
                i = close + 2;
                continue ;
            }
        }
        assert(format_close(bytes@, i as int, end as int) is None) by {
            lemma_next_byte(bytes@, i + 2, end as int, 0x29);
        }
        i = i + 1;
    }
    proof {
        lemma_no_format_in_three(bytes@, i as int, end as int);
        assert(res@ + Seq::<ByteSpan>::empty() =~= res@);
    }
    res
}

/// A format reference takes four bytes.
proof fn lemma_no_format_in_three(bytes: Seq<u8>, from: int, end: int)
    requires
        end - from <= 3,
    ensures
        format_spans(bytes, from, end) == Seq::<ByteSpan>::empty(),
    decreases end - from,
{
    if from < end {
        if from + 2 <= end {
            lemma_next_byte(bytes, from + 2, end, 0x29);
        }
        lemma_no_format_in_three(bytes, from + 1, end);
    }
}

/// Position of the first `byte` at or after `from`, `end` when there is none before it.
pub fn find_byte(bytes: &[u8], from: usize, end: usize, byte: u8) -> (res: usize)
    requires
        from <= end <= bytes@.len(),
    ensures
        res == next_byte(bytes@, from as int, end as int, byte),
        from <= res <= end,
        res < end ==> bytes@[res as int] == byte,
        forall|j: int| from <= j < res ==> bytes@[j] != byte,
{
    let mut i: usize = from;
    while i < end && bytes[i] != byte
        invariant
            from <= i <= end <= bytes@.len(),
            next_byte(bytes@, i as int, end as int, byte) == next_byte(
                bytes@,
                from as int,
                end as int,
                byte,
            ),
            forall|j: int| from <= j < i ==> bytes@[j] != byte,
        decreases end - i,
    {
        i = i + 1;
    }
    i
}

/// Whether a span is the xml id of a segment of a `groups` list between two positions: no comma in
/// it, neither padding nor `!` around it, and no more than these between it and the next comma.
pub open spec fn is_group_span(bytes: Seq<u8>, from: int, end: int, span: ByteSpan) -> bool {
    &&& from <= span.start < span.end <= end
    &&& !is_group_lead(bytes[span.start as int])
    &&& !is_xml_space(bytes[span.end - 1])
    &&& forall|j: int| span.start <= j < span.end ==> bytes[j] != 0x2c
    &&& span.start == from || is_group_lead(bytes[span.start - 1]) || bytes[span.start - 1] == 0x2c
    &&& span.end == end || is_xml_space(bytes[span.end as int]) || bytes[span.end as int] == 0x2c
}

/// Every group found is one: the span leaves out the `!`, the padding and the commas; groups come in
/// order, without overlap.
pub proof fn group_spans_are_groups(bytes: Seq<u8>, from: int, end: int)
    requires
        0 <= from <= end <= bytes.len(),
        end <= usize::MAX,
    ensures
        forall|k: int|
            0 <= k < group_spans(bytes, from, end).len() ==> is_group_span(
                bytes,
                from,
                end,
                #[trigger] group_spans(bytes, from, end)[k],
            ),
        forall|j: int, k: int|
            0 <= j < k < group_spans(bytes, from, end).len() ==> (#[trigger] group_spans(
                bytes,
                from,
                end,
            )[j]).end < (#[trigger] group_spans(bytes, from, end)[k]).start,
    decreases end - from,
{
    let comma = next_byte(bytes, from, end, 0x2c);
    lemma_next_byte(bytes, from, end, 0x2c);
    let start = skip_group_lead(bytes, from, comma);
    lemma_skip_group_lead(bytes, from, comma);
    lemma_skip_space_back(bytes, start, comma);
    let span = group_span(bytes, from, comma);
    assert(span.start < span.end ==> is_group_span(bytes, from, end, span)) by {
        if span.start > from {
            assert(is_group_lead(bytes[span.start - 1]));
        }
        if span.end < comma {
            assert(is_xml_space(bytes[span.end as int]));
        }
    }
    if comma < end {
        let first = if span.start < span.end {
            seq![span]
        } else {
            Seq::empty()
        };
        let rest = group_spans(bytes, comma + 1, end);
        group_spans_are_groups(bytes, comma + 1, end);
        let all = group_spans(bytes, from, end);
        assert(all =~= first + rest);
        assert forall|k: int| 0 <= k < all.len() implies is_group_span(
            bytes,
            from,
            end,
            #[trigger] all[k],
        ) by {
            if k >= first.len() {
                assert(all[k] == rest[k - first.len()]);
                assert(is_group_span(bytes, comma + 1, end, rest[k - first.len()]));
            }
        }
        assert forall|j: int, k: int| 0 <= j < k < all.len() implies (#[trigger] all[j]).end < (
        #[trigger] all[k]).start by {
            assert(all[k] == rest[k - first.len()]);
            assert(is_group_span(bytes, comma + 1, end, rest[k - first.len()]));
            if j >= first.len() {
                assert(all[j] == rest[j - first.len()]);
            }
        }
    }
}

/// Whether spans start and end at characters of the text.
pub open spec fn spans_fit(text: Seq<char>, spans: Seq<ByteSpan>) -> bool {
    forall|k: int|
        0 <= k < spans.len() ==> {
            let span = #[trigger] spans[k];
            &&& span.start <= span.end
            &&& boundary(text, span.start as int)
            &&& boundary(text, span.end as int)
        }
}

/// The xml ids of format references start and end at characters of the text.
pub proof fn format_spans_fit(text: Seq<char>, from: int, end: int)
    requires
        0 <= from,
        end <= utf8(text).len(),
        end <= usize::MAX,
    ensures
        spans_fit(text, format_spans(utf8(text), from, end)),
{
    let spans = format_spans(utf8(text), from, end);
    format_spans_are_references(utf8(text), from, end);
    assert forall|k: int| 0 <= k < spans.len() implies {
        let span = #[trigger] spans[k];
        &&& span.start <= span.end
        &&& boundary(text, span.start as int)
        &&& boundary(text, span.end as int)
    } by {
        assert(is_format_span(utf8(text), from, end, spans[k]));
        lemma_ascii_boundary(text, spans[k].start - 1);
        lemma_ascii_boundary(text, spans[k].end as int);
    }
}

/// The xml ids of a list that starts and ends at characters of the text do as well.
pub proof fn group_spans_fit(text: Seq<char>, from: int, end: int)
    requires
        0 <= from <= end <= utf8(text).len(),
        end <= usize::MAX,
        boundary(text, from),
        boundary(text, end),
    ensures
        spans_fit(text, group_spans(utf8(text), from, end)),
{
    let spans = group_spans(utf8(text), from, end);
    group_spans_are_groups(utf8(text), from, end);
    assert forall|k: int| 0 <= k < spans.len() implies {
        let span = #[trigger] spans[k];
        &&& span.start <= span.end
        &&& boundary(text, span.start as int)
        &&& boundary(text, span.end as int)
    } by {
        assert(is_group_span(utf8(text), from, end, spans[k]));
        if spans[k].start != from {
            lemma_ascii_boundary(text, spans[k].start - 1);
        }
        if spans[k].end != end {
            lemma_ascii_boundary(text, spans[k].end as int);
        }
    }
}

fn is_space_byte(byte: u8) -> (res: bool)
    ensures
        res == is_xml_space(byte),
{
    byte == 0x20 || byte == 0x09 || byte == 0x0a || byte == 0x0d
}

/// The xml id of one segment of a `groups` list.
fn find_group_span(bytes: &[u8], from: usize, end: usize) -> (res: ByteSpan)
    requires
        from <= end <= bytes@.len(),
    ensures
        res == group_span(bytes@, from as int, end as int),
        from <= res.start <= res.end <= end,
{
    let mut start: usize = from;
    while start < end && (is_space_byte(bytes[start]) || bytes[start] == 0x21)
        invariant
            from <= start <= end <= bytes@.len(),
            skip_group_lead(bytes@, start as int, end as int) == skip_group_lead(
                bytes@,
                from as int,
                end as int,
            ),
        decreases end - start,
    {
        start = start + 1;
    }
    let mut stop: usize = end;
    while start < stop && is_space_byte(bytes[stop - 1])
        invariant
            start <= stop <= end <= bytes@.len(),
            skip_space_back(bytes@, start as int, stop as int) == skip_space_back(
                bytes@,
                start as int,
                end as int,
            ),
        decreases stop,
    {
        stop = stop - 1;
    }
    ByteSpan { start, end: stop }
}

/// Finds the xml ids of the `groups` list between two positions.
pub fn find_group_spans(bytes: &[u8], from: usize, end: usize) -> (res: Vec<ByteSpan>)
    requires
        from <= end <= bytes@.len(),
    ensures
        res@ == group_spans(bytes@, from as int, end as int),
{
    let mut res: Vec<ByteSpan> = Vec::new();
    let mut i: usize = from;
    assert(res@ + group_spans(bytes@, i as int, end as int) =~= group_spans(
        bytes@,
        from as int,
        end as int,
    ));
    loop
        invariant
            i <= end <= bytes@.len(),
            res@ + group_spans(bytes@, i as int, end as int) == group_spans(
                bytes@,
                from as int,
                end as int,
            ),
        decreases end - i,
    {
        let comma = find_byte(bytes, i, end, 0x2c);
        let span = find_group_span(bytes, i, comma);
        let ghost before = res@;
        let ghost first = if span.start < span.end {
            seq![span]
        } else {
            Seq::empty()
        };
        if span.start < span.end {
            res.push(span);
        }
        assert(res@ =~= before + first);
        if comma == end {
            return res;
        }
        assert(res@ + group_spans(bytes@, comma + 1, end as int) =~= before + (first + group_spans(
            bytes@,
            comma + 1,
            end as int,
        )));
        i = comma + 1;
    }
}

/// First position at or after `from` that holds no white space, `end` when there is none before it.
pub open spec fn skip_space(bytes: Seq<u8>, from: int, end: int) -> int
    decreases end - from,
{
    if from < end && is_xml_space(bytes[from]) {
        skip_space(bytes, from + 1, end)
    } else {
        from
    }
}

pub proof fn lemma_skip_space(bytes: Seq<u8>, from: int, end: int)
    requires
        from <= end,
    ensures
        from <= skip_space(bytes, from, end) <= end,
    decreases end - from,
{
    if from < end && is_xml_space(bytes[from]) {
        lemma_skip_space(bytes, from + 1, end);
    }
}

/// Position of the last `byte` before `end` and not before `from`.
pub open spec fn last_byte(bytes: Seq<u8>, from: int, end: int, byte: u8) -> Option<int>
    decreases end - from,
{
    if end <= from {
        None
    } else if bytes[end - 1] == byte {
        Some(end - 1)
    } else {
        last_byte(bytes, from, end - 1, byte)
    }
}

pub proof fn lemma_last_byte(bytes: Seq<u8>, from: int, end: int, byte: u8)
    ensures
        match last_byte(bytes, from, end, byte) {
            Some(position) => {
                &&& from <= position < end
                &&& bytes[position] == byte
                &&& forall|j: int| position < j < end ==> bytes[j] != byte
            },
            None => forall|j: int| from <= j < end ==> bytes[j] != byte,
        },
    decreases end - from,
{
    if end > from && bytes[end - 1] != byte {
        lemma_last_byte(bytes, from, end - 1, byte);
    }
}

/// What may stand before the group that is being typed: blanks, and the `!` that negates it.
pub open spec fn is_typed_lead(byte: u8) -> bool {
    byte == 0x20 || byte == 0x09 || byte == 0x21
}

/// First position at or after `from` that holds more than the lead of a group being typed, `end`
/// when there is none before it.
pub open spec fn skip_typed_lead(bytes: Seq<u8>, from: int, end: int) -> int
    decreases end - from,
{
    if from < end && is_typed_lead(bytes[from]) {
        skip_typed_lead(bytes, from + 1, end)
    } else {
        from
    }
}

pub proof fn lemma_skip_typed_lead(bytes: Seq<u8>, from: int, end: int)
    requires
        from <= end,
    ensures
        from <= skip_typed_lead(bytes, from, end) <= end,
        skip_typed_lead(bytes, from, end) < end ==> !is_typed_lead(
            bytes[skip_typed_lead(bytes, from, end)],
        ),
        forall|j: int|
            from <= j < skip_typed_lead(bytes, from, end) ==> is_typed_lead(#[trigger] bytes[j]),
    decreases end - from,
{
    if from < end && is_typed_lead(bytes[from]) {
        lemma_skip_typed_lead(bytes, from + 1, end);
    }
}

/// Position of the last `byte` before `end` and not before `from`.
pub fn find_last_byte(bytes: &[u8], from: usize, end: usize, byte: u8) -> (res: Option<usize>)
    requires
        end <= bytes@.len(),
    ensures
        match res {
            Some(position) => last_byte(bytes@, from as int, end as int, byte) == Some(
                position as int,
            ),
            None => last_byte(bytes@, from as int, end as int, byte) is None,
        },
{
    let mut i: usize = end;
    while i > from
        invariant
            i <= end <= bytes@.len(),
            last_byte(bytes@, from as int, i as int, byte) == last_byte(
                bytes@,
                from as int,
                end as int,
                byte,
            ),
        decreases i,
    {
        if bytes[i - 1] == byte {
            return Some(i - 1);
        }
        i = i - 1;
    }
    None
}

/// First position at or after `from` that holds more than the lead of a group being typed.
pub fn find_typed_start(bytes: &[u8], from: usize, end: usize) -> (res: usize)
    requires
        from <= end <= bytes@.len(),
    ensures
        res == skip_typed_lead(bytes@, from as int, end as int),
        from <= res <= end,
{
    let mut i: usize = from;
    while i < end && (bytes[i] == 0x20 || bytes[i] == 0x09 || bytes[i] == 0x21)
        invariant
            from <= i <= end <= bytes@.len(),
            skip_typed_lead(bytes@, i as int, end as int) == skip_typed_lead(
                bytes@,
                from as int,
                end as int,
            ),
        decreases end - i,
    {
        i = i + 1;
    }
    i
}

/// What stands between two positions around a third without the white space at its ends; the third
/// stays inside.
pub open spec fn trimmed_span(bytes: Seq<u8>, start: int, offset: int, end: int) -> ByteSpan {
    ByteSpan {
        start: skip_space(bytes, start, offset) as usize,
        end: skip_space_back(bytes, offset, end) as usize,
    }
}

/// What stands between two positions around a third without the white space at its ends.
pub fn find_trimmed_span(bytes: &[u8], start: usize, offset: usize, end: usize) -> (res: ByteSpan)
    requires
        start <= offset <= end <= bytes@.len(),
    ensures
        res == trimmed_span(bytes@, start as int, offset as int, end as int),
        start <= res.start <= offset <= res.end <= end,
{
    let mut first: usize = start;
    while first < offset && is_space_byte(bytes[first])
        invariant
            start <= first <= offset <= bytes@.len(),
            skip_space(bytes@, first as int, offset as int) == skip_space(
                bytes@,
                start as int,
                offset as int,
            ),
        decreases offset - first,
    {
        first = first + 1;
    }
    let mut last: usize = end;
    while offset < last && is_space_byte(bytes[last - 1])
        invariant
            offset <= last <= end <= bytes@.len(),
            skip_space_back(bytes@, offset as int, last as int) == skip_space_back(
                bytes@,
                offset as int,
                end as int,
            ),
        decreases last,
    {
        last = last - 1;
    }
    ByteSpan { start: first, end: last }
}

/// Two lists of spans in one, by start, those of `left` first among equals.
pub open spec fn merged(left: Seq<ByteSpan>, right: Seq<ByteSpan>) -> Seq<ByteSpan>
    decreases left.len() + right.len(),
{
    if left.len() == 0 {
        right
    } else if right.len() == 0 {
        left
    } else if left[0].start <= right[0].start {
        seq![left[0]] + merged(left.drop_first(), right)
    } else {
        seq![right[0]] + merged(left, right.drop_first())
    }
}

/// Whether spans start one after the other.
pub open spec fn spans_in_order(spans: Seq<ByteSpan>) -> bool {
    forall|j: int, k: int|
        0 <= j <= k < spans.len() ==> (#[trigger] spans[j]).start <= (#[trigger] spans[k]).start
}

/// Whether spans lie between two positions.
pub open spec fn spans_within(spans: Seq<ByteSpan>, start: int, end: int) -> bool {
    forall|k: int|
        0 <= k < spans.len() ==> {
            let span = #[trigger] spans[k];
            start <= span.start <= span.end <= end
        }
}

/// Merging loses and adds nothing.
pub proof fn merging_keeps_spans(left: Seq<ByteSpan>, right: Seq<ByteSpan>)
    ensures
        merged(left, right).to_multiset() =~= left.to_multiset().add(right.to_multiset()),
    decreases left.len() + right.len(),
{
    broadcast use vstd::seq_lib::group_to_multiset_ensures;

    if left.len() == 0 {
        assert(left.to_multiset() =~= Multiset::empty());
    } else if right.len() == 0 {
        assert(right.to_multiset() =~= Multiset::empty());
    } else if left[0].start <= right[0].start {
        let rest = merged(left.drop_first(), right);
        merging_keeps_spans(left.drop_first(), right);
        assert(left =~= seq![left[0]] + left.drop_first());
        vstd::seq_lib::lemma_multiset_commutative(seq![left[0]], left.drop_first());
        vstd::seq_lib::lemma_multiset_commutative(seq![left[0]], rest);
    } else {
        let rest = merged(left, right.drop_first());
        merging_keeps_spans(left, right.drop_first());
        assert(right =~= seq![right[0]] + right.drop_first());
        vstd::seq_lib::lemma_multiset_commutative(seq![right[0]], right.drop_first());
        vstd::seq_lib::lemma_multiset_commutative(seq![right[0]], rest);
    }
}

/// What is merged comes from either list.
pub proof fn lemma_merged_from(left: Seq<ByteSpan>, right: Seq<ByteSpan>)
    ensures
        forall|k: int|
            0 <= k < merged(left, right).len() ==> left.contains(#[trigger] merged(left, right)[k])
                || right.contains(merged(left, right)[k]),
    decreases left.len() + right.len(),
{
    let all = merged(left, right);
    if left.len() > 0 && right.len() > 0 {
        let (l, r) = if left[0].start <= right[0].start {
            (left.drop_first(), right)
        } else {
            (left, right.drop_first())
        };
        lemma_merged_from(l, r);
        let rest = merged(l, r);
        assert forall|k: int| 0 <= k < all.len() implies left.contains(#[trigger] all[k])
            || right.contains(all[k]) by {
            if k == 0 {
                assert(left.contains(left[0]) && right.contains(right[0]));
            } else {
                assert(all[k] == rest[k - 1]);
                if l.contains(rest[k - 1]) {
                    let i = l.index_of(rest[k - 1]);
                    assert(left[i + left.len() - l.len()] == l[i]);
                } else {
                    let i = r.index_of(rest[k - 1]);
                    assert(right[i + right.len() - r.len()] == r[i]);
                }
            }
        }
    }
}

/// Merging spans in order gives spans in order, between the same positions.
pub proof fn lemma_merged_in_order(left: Seq<ByteSpan>, right: Seq<ByteSpan>, start: int, end: int)
    requires
        spans_in_order(left),
        spans_in_order(right),
        spans_within(left, start, end),
        spans_within(right, start, end),
    ensures
        spans_in_order(merged(left, right)),
        spans_within(merged(left, right), start, end),
    decreases left.len() + right.len(),
{
    let all = merged(left, right);
    lemma_merged_from(left, right);
    assert forall|k: int| 0 <= k < all.len() implies {
        let span = #[trigger] all[k];
        start <= span.start <= span.end <= end
    } by {
        assert(left.contains(all[k]) || right.contains(all[k]));
    }
    if left.len() > 0 && right.len() > 0 {
        let (l, r) = if left[0].start <= right[0].start {
            (left.drop_first(), right)
        } else {
            (left, right.drop_first())
        };
        assert forall|k: int| 0 <= k < l.len() implies left.contains(#[trigger] l[k]) by {
            assert(left[k + left.len() - l.len()] == l[k]);
        }
        assert forall|k: int| 0 <= k < r.len() implies right.contains(#[trigger] r[k]) by {
            assert(right[k + right.len() - r.len()] == r[k]);
        }
        lemma_merged_in_order(l, r, start, end);
        lemma_merged_from(l, r);
        let rest = merged(l, r);
        assert forall|j: int, k: int| 0 <= j <= k < all.len() implies (#[trigger] all[j]).start <= (
        #[trigger] all[k]).start by {
            if j > 0 {
                assert(all[j] == rest[j - 1] && all[k] == rest[k - 1]);
            } else if k > 0 {
                let span = rest[k - 1];
                assert(all[k] == span);
                assert(l.contains(span) || r.contains(span));
                assert(left.contains(span) || right.contains(span));
                if left.contains(span) {
                    assert(left[0].start <= left[left.index_of(span)].start);
                } else {
                    assert(right[0].start <= right[right.index_of(span)].start);
                }
            }
        }
    }
}

/// Two lists of spans in one, by start.
pub fn merge_spans(left: &Vec<ByteSpan>, right: &Vec<ByteSpan>) -> (res: Vec<ByteSpan>)
    ensures
        res@ == merged(left@, right@),
{
    let mut res: Vec<ByteSpan> = Vec::new();
    let mut i: usize = 0;
    let mut j: usize = 0;
    assert(left@.skip(0) =~= left@ && right@.skip(0) =~= right@);
    assert(res@ + merged(left@, right@) =~= merged(left@, right@));
    while i < left.len() || j < right.len()
        invariant
            i <= left.len(),
            j <= right.len(),
            res@ + merged(left@.skip(i as int), right@.skip(j as int)) == merged(left@, right@),
        decreases left.len() - i + right.len() - j,
    {
        let ghost (l, r) = (left@.skip(i as int), right@.skip(j as int));
        let ghost before = res@;
        assert(i < left.len() ==> l.drop_first() =~= left@.skip(i + 1));
        assert(j < right.len() ==> r.drop_first() =~= right@.skip(j + 1));
        if i < left.len() && (j == right.len() || left[i].start <= right[j].start) {
            res.push(left[i]);
            assert(merged(l, r) =~= seq![l[0]] + merged(l.drop_first(), r));
            assert(res@ + merged(l.drop_first(), r) =~= before + (seq![l[0]] + merged(
                l.drop_first(),
                r,
            )));
            i = i + 1;
        } else {
            res.push(right[j]);
            assert(merged(l, r) =~= seq![r[0]] + merged(l, r.drop_first()));
            assert(res@ + merged(l, r.drop_first()) =~= before + (seq![r[0]] + merged(
                l,
                r.drop_first(),
            )));
            j = j + 1;
        }
    }
    assert(merged(left@.skip(i as int), right@.skip(j as int)) =~= Seq::empty());
    assert(res@ =~= merged(left@, right@));
    res
}

} // verus!
