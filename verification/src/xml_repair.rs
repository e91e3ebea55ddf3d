//! Closing what is still open at the cursor, so that a document being typed parses.
//!
//! Completion is asked for while a tag is still being typed. What stands before the cursor is
//! scanned for the elements it leaves open, and what closes them is put behind it.
use vstd::prelude::*;

use crate::text::{
    boundary, byte_slice, char_vec, lemma_boundary_in_range, lemma_utf8_concat, slice, utf8,
};
use vstd::string::{StrSliceExecFns, StringExecFns};
use vstd::utf8::{
    decode_utf8_encode_utf8, encode_utf8_valid_utf8, is_char_boundary_start_end_of_seq,
    valid_utf8_split,
};

verus! {

/// Where a scan of XML stands.
#[derive(Clone, Copy, PartialEq, Eq, Structural, Debug)]
pub enum XmlMode {
    Content,
    /// After `<`.
    Lt,
    /// In the name of a start tag.
    OpenName,
    /// In a start tag, after its name.
    InTag,
    /// After the `/` of a start tag.
    Slash,
    /// In a value between `"`.
    DoubleQuoted,
    /// In a value between `'`.
    SingleQuoted,
    /// In an end tag.
    CloseTag,
    /// After `<!`.
    Bang,
    /// After `<!-`.
    BangDash,
    Comment,
    /// After a `-` of a comment.
    CommentDash,
    /// After `--` in a comment.
    CommentDashes,
    /// After `<![`.
    CData,
    /// After a `]` of a section of character data.
    CDataBracket,
    /// After `]]` in a section of character data.
    CDataBrackets,
    /// In any other declaration.
    Declaration,
    /// In a processing instruction.
    Instruction,
    /// After a `?` of a processing instruction.
    InstructionMark,
}

/// What a scan has seen: where it stands, the names of the open elements, outermost first, and the
/// name of the start tag it is in.
pub ghost struct ScanView {
    pub mode: XmlMode,
    pub open: Seq<Seq<char>>,
    pub name: Seq<char>,
}

/// White space of XML.
pub open spec fn is_xml_white(c: char) -> bool {
    c == ' ' || c == '\t' || c == '\n' || c == '\r'
}

/// Mode after one more character.
pub open spec fn next_mode(mode: XmlMode, c: char) -> XmlMode {
    match mode {
        XmlMode::Content => if c == '<' {
            XmlMode::Lt
        } else {
            XmlMode::Content
        },
        XmlMode::Lt => if c == '/' {
            XmlMode::CloseTag
        } else if c == '!' {
            XmlMode::Bang
        } else if c == '?' {
            XmlMode::Instruction
        } else if c == '>' {
            XmlMode::Content
        } else {
            XmlMode::OpenName
        },
        XmlMode::OpenName => if c == '>' {
            XmlMode::Content
        } else if c == '/' {
            XmlMode::Slash
        } else if is_xml_white(c) {
            XmlMode::InTag
        } else {
            XmlMode::OpenName
        },
        XmlMode::InTag => if c == '>' {
            XmlMode::Content
        } else if c == '/' {
            XmlMode::Slash
        } else if c == '"' {
            XmlMode::DoubleQuoted
        } else if c == '\'' {
            XmlMode::SingleQuoted
        } else {
            XmlMode::InTag
        },
        XmlMode::Slash => if c == '>' {
            XmlMode::Content
        } else {
            XmlMode::InTag
        },
        XmlMode::DoubleQuoted => if c == '"' {
            XmlMode::InTag
        } else {
            XmlMode::DoubleQuoted
        },
        XmlMode::SingleQuoted => if c == '\'' {
            XmlMode::InTag
        } else {
            XmlMode::SingleQuoted
        },
        XmlMode::CloseTag => if c == '>' {
            XmlMode::Content
        } else {
            XmlMode::CloseTag
        },
        XmlMode::Bang => if c == '-' {
            XmlMode::BangDash
        } else if c == '[' {
            XmlMode::CData
        } else if c == '>' {
            XmlMode::Content
        } else {
            XmlMode::Declaration
        },
        XmlMode::BangDash => if c == '-' {
            XmlMode::Comment
        } else if c == '>' {
            XmlMode::Content
        } else {
            XmlMode::Declaration
        },
        XmlMode::Comment => if c == '-' {
            XmlMode::CommentDash
        } else {
            XmlMode::Comment
        },
        XmlMode::CommentDash => if c == '-' {
            XmlMode::CommentDashes
        } else {
            XmlMode::Comment
        },
        XmlMode::CommentDashes => if c == '>' {
            XmlMode::Content
        } else if c == '-' {
            XmlMode::CommentDashes
        } else {
            XmlMode::Comment
        },
        XmlMode::CData => if c == ']' {
            XmlMode::CDataBracket
        } else {
            XmlMode::CData
        },
        XmlMode::CDataBracket => if c == ']' {
            XmlMode::CDataBrackets
        } else {
            XmlMode::CData
        },
        XmlMode::CDataBrackets => if c == '>' {
            XmlMode::Content
        } else if c == ']' {
            XmlMode::CDataBrackets
        } else {
            XmlMode::CData
        },
        XmlMode::Declaration => if c == '>' {
            XmlMode::Content
        } else {
            XmlMode::Declaration
        },
        XmlMode::Instruction => if c == '?' {
            XmlMode::InstructionMark
        } else {
            XmlMode::Instruction
        },
        XmlMode::InstructionMark => if c == '>' {
            XmlMode::Content
        } else if c == '?' {
            XmlMode::InstructionMark
        } else {
            XmlMode::Instruction
        },
    }
}

/// Whether a character opens an element: the `>` of a start tag.
pub open spec fn opens(mode: XmlMode, c: char) -> bool {
    c == '>' && (mode == XmlMode::OpenName || mode == XmlMode::InTag)
}

/// Whether a character closes an element: the `>` of an end tag.
pub open spec fn closes(mode: XmlMode, c: char) -> bool {
    c == '>' && mode == XmlMode::CloseTag
}

/// What a scan has seen after one more character.
pub open spec fn scan_step(scan: ScanView, c: char) -> ScanView {
    let mode = next_mode(scan.mode, c);
    ScanView {
        mode,
        open: if opens(scan.mode, c) {
            scan.open.push(scan.name)
        } else if closes(scan.mode, c) && scan.open.len() > 0 {
            scan.open.drop_last()
        } else {
            scan.open
        },
        name: if mode == XmlMode::OpenName {
            if scan.mode == XmlMode::Lt {
                seq![c]
            } else {
                scan.name.push(c)
            }
        } else {
            scan.name
        },
    }
}

/// What a scan has seen before the first character.
pub open spec fn scan_start() -> ScanView {
    ScanView { mode: XmlMode::Content, open: Seq::empty(), name: Seq::empty() }
}

/// What a scan that stands at `scan` has seen after a text.
pub open spec fn scan_from(scan: ScanView, text: Seq<char>) -> ScanView
    decreases text.len(),
{
    if text.len() == 0 {
        scan
    } else {
        scan_step(scan_from(scan, text.drop_last()), text.last())
    }
}

/// The end tags of open elements, innermost first.
pub open spec fn end_tags(open: Seq<Seq<char>>) -> Seq<char>
    decreases open.len(),
{
    if open.len() == 0 {
        Seq::empty()
    } else {
        seq!['<', '/'] + open.last() + seq!['>'] + end_tags(open.drop_last())
    }
}

/// What ends the tag that a scan stands in, `None` where nothing can be completed.
pub open spec fn tag_end(mode: XmlMode) -> Option<Seq<char>> {
    match mode {
        XmlMode::Content => Some(Seq::empty()),
        XmlMode::OpenName | XmlMode::InTag => Some(seq!['/', '>']),
        XmlMode::Slash => Some(seq!['>']),
        XmlMode::DoubleQuoted => Some(seq!['"', '/', '>']),
        XmlMode::SingleQuoted => Some(seq!['\'', '/', '>']),
        _ => None,
    }
}

/// What closes all that a text leaves open, `None` where nothing can be completed.
pub open spec fn missing_end(text: Seq<char>) -> Option<Seq<char>> {
    let scan = scan_from(scan_start(), text);
    match tag_end(scan.mode) {
        Some(end) => Some(end + end_tags(scan.open)),
        None => None,
    }
}

/// The text before the cursor with all that it leaves open closed.
pub open spec fn repaired_text(text: Seq<char>, offset: int) -> Option<Seq<char>> {
    let before = byte_slice(text, 0, offset);
    match missing_end(before) {
        Some(end) => Some(before + end),
        None => None,
    }
}

/// Whether no name that a scan holds has a `>` in it.
spec fn names_plain(scan: ScanView) -> bool {
    &&& !scan.name.contains('>')
    &&& forall|k: int| 0 <= k < scan.open.len() ==> !(#[trigger] scan.open[k]).contains('>')
}

proof fn lemma_step_names_plain(scan: ScanView, c: char)
    requires
        names_plain(scan),
    ensures
        names_plain(scan_step(scan, c)),
{
    let next = scan_step(scan, c);
    assert(!next.name.contains('>')) by {
        if next.mode == XmlMode::OpenName {
            assert(c != '>');
            assert forall|i: int| 0 <= i < next.name.len() implies next.name[i] != '>' by {
                if scan.mode != XmlMode::Lt && i < scan.name.len() {
                    assert(scan.name.contains(scan.name[i]));
                }
            }
        }
    }
    assert forall|k: int| 0 <= k < next.open.len() implies !(#[trigger] next.open[k]).contains(
        '>',
    ) by {
        if k < scan.open.len() {
            assert(next.open[k] == scan.open[k]);
        }
    }
}

proof fn lemma_scan_names_plain(text: Seq<char>)
    ensures
        names_plain(scan_from(scan_start(), text)),
    decreases text.len(),
{
    if text.len() > 0 {
        lemma_scan_names_plain(text.drop_last());
        lemma_step_names_plain(scan_from(scan_start(), text.drop_last()), text.last());
    }
}

/// Scanning two texts one after the other is scanning them joined.
pub proof fn lemma_scan_concat(scan: ScanView, left: Seq<char>, right: Seq<char>)
    ensures
        scan_from(scan, left + right) == scan_from(scan_from(scan, left), right),
    decreases right.len(),
{
    if right.len() == 0 {
        assert(left + right =~= left);
    } else {
        assert((left + right).drop_last() =~= left + right.drop_last());
        lemma_scan_concat(scan, left, right.drop_last());
    }
}

/// Scanning one more character first.
pub proof fn lemma_scan_first(scan: ScanView, c: char, rest: Seq<char>)
    ensures
        scan_from(scan, seq![c] + rest) == scan_from(scan_step(scan, c), rest),
{
    lemma_scan_concat(scan, seq![c], rest);
    assert(seq![c].drop_last() =~= Seq::<char>::empty());
    assert(scan_from(scan, seq![c].drop_last()) == scan);
    assert(scan_from(scan, seq![c]) == scan_step(scan, c));
}

/// A name without `>` leaves a scan in an end tag.
proof fn lemma_scan_end_name(scan: ScanView, name: Seq<char>)
    requires
        scan.mode == XmlMode::CloseTag,
        !name.contains('>'),
    ensures
        scan_from(scan, name) == scan,
    decreases name.len(),
{
    if name.len() > 0 {
        assert(name.contains(name.last()));
        assert(!name.drop_last().contains('>')) by {
            assert forall|i: int| 0 <= i < name.drop_last().len() implies name.drop_last()[i]
                != '>' by {
                assert(name.contains(name[i]));
            }
        }
        lemma_scan_end_name(scan, name.drop_last());
    }
}

/// The end tags of the open elements close them all.
proof fn lemma_end_tags_close(scan: ScanView)
    requires
        scan.mode == XmlMode::Content,
        names_plain(scan),
    ensures
        ({
            let after = scan_from(scan, end_tags(scan.open));
            after.mode == XmlMode::Content && after.open.len() == 0
        }),
    decreases scan.open.len(),
{
    if scan.open.len() > 0 {
        let name = scan.open.last();
        assert(!scan.open[scan.open.len() - 1].contains('>'));
        let rest = end_tags(scan.open.drop_last());
        let in_tag = ScanView { mode: XmlMode::CloseTag, ..scan };
        let closed = ScanView { mode: XmlMode::Content, open: scan.open.drop_last(), ..scan };
        assert(end_tags(scan.open) =~= seq!['<'] + (seq!['/'] + (name + (seq!['>'] + rest))));
        lemma_scan_first(scan, '<', seq!['/'] + (name + (seq!['>'] + rest)));
        lemma_scan_first(scan_step(scan, '<'), '/', name + (seq!['>'] + rest));
        assert(scan_step(scan_step(scan, '<'), '/') == in_tag);
        lemma_scan_concat(in_tag, name, seq!['>'] + rest);
        lemma_scan_end_name(in_tag, name);
        lemma_scan_first(in_tag, '>', rest);
        assert(scan_step(in_tag, '>') == closed);
        assert(names_plain(closed)) by {
            assert forall|k: int| 0 <= k < closed.open.len() implies !(
            #[trigger] closed.open[k]).contains('>') by {
                assert(closed.open[k] == scan.open[k]);
            }
        }
        lemma_end_tags_close(closed);
    }
}

/// What ends a tag leaves the scan in content with the same elements open.
proof fn lemma_tag_end(scan: ScanView)
    requires
        tag_end(scan.mode) is Some,
    ensures
        ({
            let after = scan_from(scan, tag_end(scan.mode)->0);
            after.mode == XmlMode::Content && after.open == scan.open && after.name == scan.name
        }),
{
    let end = tag_end(scan.mode)->0;
    let nothing = Seq::<char>::empty();
    if end.len() == 1 {
        assert(end =~= seq![end[0]] + nothing);
        lemma_scan_first(scan, end[0], nothing);
    } else if end.len() == 2 {
        assert(end =~= seq![end[0]] + (seq![end[1]] + nothing));
        lemma_scan_first(scan, end[0], seq![end[1]] + nothing);
        lemma_scan_first(scan_step(scan, end[0]), end[1], nothing);
    } else if end.len() == 3 {
        assert(end =~= seq![end[0]] + (seq![end[1]] + (seq![end[2]] + nothing)));
        lemma_scan_first(scan, end[0], seq![end[1]] + (seq![end[2]] + nothing));
        lemma_scan_first(scan_step(scan, end[0]), end[1], seq![end[2]] + nothing);
        lemma_scan_first(
            scan_step(scan_step(scan, end[0]), end[1]),
            end[2],
            nothing,
        );
    }
}

/// A repaired text starts with what stands before the cursor.
pub proof fn repair_keeps_what_is_typed(text: Seq<char>, offset: int)
    requires
        repaired_text(text, offset) is Some,
    ensures
        byte_slice(text, 0, offset).is_prefix_of(repaired_text(text, offset)->0),
{
}

/// Offsets before the cursor mean the same in a repaired text.
pub proof fn repair_keeps_offsets(text: Seq<char>, offset: int)
    requires
        boundary(text, offset),
        repaired_text(text, offset) is Some,
    ensures
        0 <= offset <= utf8(repaired_text(text, offset)->0).len(),
        utf8(repaired_text(text, offset)->0).take(offset) == utf8(text).take(offset),
{
    let before = byte_slice(text, 0, offset);
    let end = missing_end(before)->0;
    encode_utf8_valid_utf8(text);
    lemma_boundary_in_range(text, offset);
    valid_utf8_split(utf8(text), offset);
    decode_utf8_encode_utf8(utf8(text).subrange(0, offset));
    lemma_utf8_concat(before, end);
    assert(utf8(before) =~= utf8(text).take(offset));
    assert(utf8(before + end).take(offset) =~= utf8(before));
}

/// A repaired text leaves no tag unfinished and no element open.
pub proof fn repair_closes_everything(text: Seq<char>, offset: int)
    requires
        repaired_text(text, offset) is Some,
    ensures
        ({
            let after = scan_from(scan_start(), repaired_text(text, offset)->0);
            after.mode == XmlMode::Content && after.open.len() == 0
        }),
{
    let before = byte_slice(text, 0, offset);
    let scan = scan_from(scan_start(), before);
    let end = tag_end(scan.mode)->0;
    let ended = scan_from(scan, end);
    lemma_scan_names_plain(before);
    lemma_scan_concat(scan_start(), before, end + end_tags(scan.open));
    lemma_scan_concat(scan, end, end_tags(scan.open));
    lemma_tag_end(scan);
    assert(names_plain(ended));
    lemma_end_tags_close(ended);
}

/// A text that leaves nothing open stays as it is.
pub proof fn repair_adds_nothing_needless(text: Seq<char>, offset: int)
    requires
        ({
            let scan = scan_from(scan_start(), byte_slice(text, 0, offset));
            scan.mode == XmlMode::Content && scan.open.len() == 0
        }),
    ensures
        repaired_text(text, offset) == Some(byte_slice(text, 0, offset)),
{
    let before = byte_slice(text, 0, offset);
    assert(before + (Seq::<char>::empty() + Seq::<char>::empty()) =~= before);
}

fn is_white(c: char) -> (res: bool)
    ensures
        res == is_xml_white(c),
{
    c == ' ' || c == '\t' || c == '\n' || c == '\r'
}

/// Mode after one more character.
fn step_mode(mode: XmlMode, c: char) -> (res: XmlMode)
    ensures
        res == next_mode(mode, c),
{
    match mode {
        XmlMode::Content => if c == '<' {
            XmlMode::Lt
        } else {
            XmlMode::Content
        },
        XmlMode::Lt => if c == '/' {
            XmlMode::CloseTag
        } else if c == '!' {
            XmlMode::Bang
        } else if c == '?' {
            XmlMode::Instruction
        } else if c == '>' {
            XmlMode::Content
        } else {
            XmlMode::OpenName
        },
        XmlMode::OpenName => if c == '>' {
            XmlMode::Content
        } else if c == '/' {
            XmlMode::Slash
        } else if is_white(c) {
            XmlMode::InTag
        } else {
            XmlMode::OpenName
        },
        XmlMode::InTag => if c == '>' {
            XmlMode::Content
        } else if c == '/' {
            XmlMode::Slash
        } else if c == '"' {
            XmlMode::DoubleQuoted
        } else if c == '\'' {
            XmlMode::SingleQuoted
        } else {
            XmlMode::InTag
        },
        XmlMode::Slash => if c == '>' {
            XmlMode::Content
        } else {
            XmlMode::InTag
        },
        XmlMode::DoubleQuoted => if c == '"' {
            XmlMode::InTag
        } else {
            XmlMode::DoubleQuoted
        },
        XmlMode::SingleQuoted => if c == '\'' {
            XmlMode::InTag
        } else {
            XmlMode::SingleQuoted
        },
        XmlMode::CloseTag => if c == '>' {
            XmlMode::Content
        } else {
            XmlMode::CloseTag
        },
        XmlMode::Bang => if c == '-' {
            XmlMode::BangDash
        } else if c == '[' {
            XmlMode::CData
        } else if c == '>' {
            XmlMode::Content
        } else {
            XmlMode::Declaration
        },
        XmlMode::BangDash => if c == '-' {
            XmlMode::Comment
        } else if c == '>' {
            XmlMode::Content
        } else {
            XmlMode::Declaration
        },
        XmlMode::Comment => if c == '-' {
            XmlMode::CommentDash
        } else {
            XmlMode::Comment
        },
        XmlMode::CommentDash => if c == '-' {
            XmlMode::CommentDashes
        } else {
            XmlMode::Comment
        },
        XmlMode::CommentDashes => if c == '>' {
            XmlMode::Content
        } else if c == '-' {
            XmlMode::CommentDashes
        } else {
            XmlMode::Comment
        },
        XmlMode::CData => if c == ']' {
            XmlMode::CDataBracket
        } else {
            XmlMode::CData
        },
        XmlMode::CDataBracket => if c == ']' {
            XmlMode::CDataBrackets
        } else {
            XmlMode::CData
        },
        XmlMode::CDataBrackets => if c == '>' {
            XmlMode::Content
        } else if c == ']' {
            XmlMode::CDataBrackets
        } else {
            XmlMode::CData
        },
        XmlMode::Declaration => if c == '>' {
            XmlMode::Content
        } else {
            XmlMode::Declaration
        },
        XmlMode::Instruction => if c == '?' {
            XmlMode::InstructionMark
        } else {
            XmlMode::Instruction
        },
        XmlMode::InstructionMark => if c == '>' {
            XmlMode::Content
        } else if c == '?' {
            XmlMode::InstructionMark
        } else {
            XmlMode::Instruction
        },
    }
}

/// What a scan has seen, names being kept as the positions of their characters.
struct Scan {
    mode: XmlMode,
    open: Vec<(usize, usize)>,
    name: (usize, usize),
}

/// Names between positions of a text.
spec fn names_at(text: Seq<char>, positions: Seq<(usize, usize)>) -> Seq<Seq<char>> {
    positions.map_values(|at: (usize, usize)| text.subrange(at.0 as int, at.1 as int))
}

impl Scan {
    /// Whether the positions lie in the first `count` characters.
    spec fn fits(self, count: int) -> bool {
        &&& self.name.0 <= self.name.1 <= count
        &&& self.mode == XmlMode::OpenName ==> self.name.1 == count
        &&& forall|k: int|
            0 <= k < self.open@.len() ==> (#[trigger] self.open@[k]).0 <= self.open@[k].1 <= count
    }

    /// What the scan of `text` has seen.
    spec fn seen(self, text: Seq<char>) -> ScanView {
        ScanView {
            mode: self.mode,
            open: names_at(text, self.open@),
            name: text.subrange(self.name.0 as int, self.name.1 as int),
        }
    }
}

/// Scans a text.
fn scan_chars(chars: &Vec<char>) -> (res: Scan)
    ensures
        res.fits(chars@.len() as int),
        res.seen(chars@) == scan_from(scan_start(), chars@),
{
    let mut scan = Scan { mode: XmlMode::Content, open: Vec::new(), name: (0, 0) };
    let mut i: usize = 0;
    assert(scan.seen(chars@).open =~= Seq::empty());
    assert(scan.seen(chars@).name =~= Seq::empty());
    while i < chars.len()
        invariant
            i <= chars.len(),
            scan.fits(i as int),
            scan.seen(chars@) == scan_from(scan_start(), chars@.take(i as int)),
        decreases chars.len() - i,
    {
        let c = chars[i];
        let ghost before = scan.seen(chars@);
        let ghost positions = scan.open@;
        assert(chars@.take(i + 1).drop_last() =~= chars@.take(i as int));
        let mode = step_mode(scan.mode, c);
        if c == '>' && (scan.mode == XmlMode::OpenName || scan.mode == XmlMode::InTag) {
            scan.open.push(scan.name);
            assert(names_at(chars@, scan.open@) =~= before.open.push(before.name));
        } else if c == '>' && scan.mode == XmlMode::CloseTag {
            if scan.open.len() > 0 {
                scan.open.pop();
                assert(names_at(chars@, scan.open@) =~= before.open.drop_last());
                assert forall|k: int| 0 <= k < scan.open@.len() implies (
                #[trigger] scan.open@[k]).0 <= scan.open@[k].1 <= i by {
                    assert(scan.open@[k] == positions[k]);
                }
            }
        }
        if mode == XmlMode::OpenName {
            if scan.mode == XmlMode::Lt {
                scan.name = (i, i + 1);
                assert(chars@.subrange(i as int, i + 1) =~= seq![c]);
            } else {
                let ghost start = scan.name.0 as int;
                scan.name = (scan.name.0, i + 1);
                assert(chars@.subrange(start, i + 1) =~= chars@.subrange(start, i as int).push(c));
            }
        }
        scan.mode = mode;
        assert(scan.seen(chars@) == scan_step(before, c));
        i = i + 1;
    }
    assert(chars@.take(chars@.len() as int) =~= chars@);
    scan
}

/// What ends the tag that a scan stands in.
fn find_tag_end(mode: XmlMode) -> (res: Option<&'static str>)
    ensures
        match res {
            Some(end) => tag_end(mode) == Some(end@),
            None => tag_end(mode) is None,
        },
{
    proof {
        reveal_strlit("");
        reveal_strlit("/>");
        reveal_strlit(">");
        reveal_strlit("\"/>");
        reveal_strlit("'/>");
    }
    match mode {
        XmlMode::Content => {
            assert(""@ =~= Seq::empty());
            Some("")
        },
        XmlMode::OpenName | XmlMode::InTag => {
            assert("/>"@ =~= seq!['/', '>']);
            Some("/>")
        },
        XmlMode::Slash => {
            assert(">"@ =~= seq!['>']);
            Some(">")
        },
        XmlMode::DoubleQuoted => {
            assert("\"/>"@ =~= seq!['"', '/', '>']);
            Some("\"/>")
        },
        XmlMode::SingleQuoted => {
            assert("'/>"@ =~= seq!['\'', '/', '>']);
            Some("'/>")
        },
        _ => None,
    }
}

/// The text before the cursor with all that it leaves open closed, `None` where nothing can be
/// completed.
pub fn repair(text: &str, offset: usize) -> (res: Option<String>)
    requires
        boundary(text@, offset as int),
    ensures
        match res {
            Some(repaired) => repaired_text(text@, offset as int) == Some(repaired@),
            None => repaired_text(text@, offset as int) is None,
        },
{
    proof {
        encode_utf8_valid_utf8(text@);
        is_char_boundary_start_end_of_seq(utf8(text@));
    }
    let before = slice(text, 0, offset);
    let chars = char_vec(before);
    let scan = scan_chars(&chars);
    let ghost seen = scan.seen(before@);
    match find_tag_end(scan.mode) {
        None => None,
        Some(end) => {
            let mut repaired = before.to_string();
            repaired.append(end);
            let ghost ended = repaired@;
            let mut left: usize = scan.open.len();
            assert(seen.open.take(left as int) =~= seen.open);
            proof {
                reveal_strlit("</");
                reveal_strlit(">");
                assert("</"@ =~= seq!['<', '/']);
                assert(">"@ =~= seq!['>']);
            }
            while left > 0
                invariant
                    left <= scan.open.len(),
                    chars@ == before@,
                    scan.fits(chars@.len() as int),
                    seen == scan.seen(before@),
                    "</"@ == seq!['<', '/'],
                    ">"@ == seq!['>'],
                    repaired@ + end_tags(seen.open.take(left as int)) == ended + end_tags(seen.open),
                decreases left,
            {
                let (start, stop) = scan.open[left - 1];
                let ghost still_open = seen.open.take(left as int);
                assert(still_open.drop_last() =~= seen.open.take(left - 1));
                assert(still_open.last() == before@.subrange(start as int, stop as int));
                let ghost previous = repaired@;
                repaired.append("</");
                repaired.append(before.substring_char(start, stop));
                repaired.append(">");
                assert(repaired@ + end_tags(seen.open.take(left - 1)) =~= previous + end_tags(
                    still_open,
                ));
                left = left - 1;
            }
            assert(end_tags(seen.open.take(0)) =~= Seq::empty());
            assert(repaired@ =~= ended + end_tags(seen.open));
            assert(repaired@ =~= before@ + (end@ + end_tags(seen.open)));
            Some(repaired)
        },
    }
}

} // verus!
