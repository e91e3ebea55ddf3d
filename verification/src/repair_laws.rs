//! What holds of scanning a document that is being typed: what each construct of XML does to the
//! elements that are open.
use vstd::prelude::*;

use crate::text::byte_slice;
use crate::xml_repair::{
    end_tags, lemma_scan_concat, lemma_scan_first, missing_end, repaired_text, scan_from,
    scan_start, scan_step, ScanView, XmlMode,
};

verus! {

/// Whether a character may stand in the name of a tag: it is no white space, no `/` and no `>`.
pub open spec fn is_of_name(c: char) -> bool {
    c != ' ' && c != '\t' && c != '\n' && c != '\r' && c != '/' && c != '>'
}

/// Whether a text is the name of an element.
pub open spec fn is_name(name: Seq<char>) -> bool {
    &&& name.len() > 0
    &&& name[0] != '!' && name[0] != '?'
    &&& forall|i: int| 0 <= i < name.len() ==> is_of_name(#[trigger] name[i])
}

/// Whether a text does not hold a character.
pub open spec fn is_without(text: Seq<char>, c: char) -> bool {
    forall|i: int| 0 <= i < text.len() ==> #[trigger] text[i] != c
}

/// Text changes nothing: a scan in content stays as it is up to the next `<`.
pub proof fn text_changes_nothing(scan: ScanView, text: Seq<char>)
    requires
        scan.mode == XmlMode::Content,
        is_without(text, '<'),
    ensures
        scan_from(scan, text) == scan,
    decreases text.len(),
{
    if text.len() > 0 {
        let shorter = text.drop_last();
        assert forall|i: int| 0 <= i < shorter.len() implies #[trigger] shorter[i] != '<' by {
            assert(shorter[i] == text[i]);
        }
        assert(text[text.len() - 1] != '<');
        text_changes_nothing(scan, shorter);
    }
}

/// The name of a start tag is read up to its end.
proof fn lemma_name(scan: ScanView, name: Seq<char>)
    requires
        scan.mode == XmlMode::Content,
        is_name(name),
    ensures
        scan_from(scan, seq!['<'] + name) == (ScanView { mode: XmlMode::OpenName, name, ..scan }),
    decreases name.len(),
{
    let open = ScanView { mode: XmlMode::Lt, ..scan };
    lemma_scan_first(scan, '<', name);
    if name.len() == 1 {
        assert(is_of_name(name[0]));
        assert(name.drop_last() =~= Seq::<char>::empty());
        assert(scan_from(open, name.drop_last()) == open);
        assert(scan_from(open, name).name =~= name);
    } else {
        let shorter = name.drop_last();
        assert forall|i: int| 0 <= i < shorter.len() implies is_of_name(#[trigger] shorter[i]) by {
            assert(shorter[i] == name[i]);
        }
        lemma_name(scan, shorter);
        lemma_scan_first(scan, '<', shorter);
        assert(is_of_name(name[name.len() - 1]));
        assert(shorter.push(name.last()) =~= name);
    }
}

/// A start tag opens its element: `<name>` does.
pub proof fn start_tags_open(scan: ScanView, name: Seq<char>)
    requires
        scan.mode == XmlMode::Content,
        is_name(name),
    ensures
        scan_from(scan, seq!['<'] + name + seq!['>']) == (ScanView {
            mode: XmlMode::Content,
            open: scan.open.push(name),
            name,
        }),
{
    lemma_name(scan, name);
    lemma_one(scan, seq!['<'] + name, '>');
}

proof fn lemma_one(scan: ScanView, text: Seq<char>, c: char)
    ensures
        scan_from(scan, text + seq![c]) == scan_step(scan_from(scan, text), c),
{
    assert((text + seq![c]).drop_last() =~= text);
}

/// An element that is closed in its own tag, `<name/>`, is not left open.
pub proof fn empty_tags_open_nothing(scan: ScanView, name: Seq<char>)
    requires
        scan.mode == XmlMode::Content,
        is_name(name),
    ensures
        scan_from(scan, seq!['<'] + name + seq!['/'] + seq!['>']) == (ScanView {
            mode: XmlMode::Content,
            open: scan.open,
            name,
        }),
{
    lemma_name(scan, name);
    lemma_one(scan, seq!['<'] + name, '/');
    lemma_one(scan, seq!['<'] + name + seq!['/'], '>');
}

/// Behind its name and a blank, a start tag is still to end.
pub proof fn names_end_at_a_blank(scan: ScanView, name: Seq<char>, blank: char)
    requires
        scan.mode == XmlMode::Content,
        is_name(name),
        blank == ' ' || blank == '\t' || blank == '\n' || blank == '\r',
    ensures
        scan_from(scan, seq!['<'] + name + seq![blank]) == (ScanView {
            mode: XmlMode::InTag,
            open: scan.open,
            name,
        }),
{
    lemma_name(scan, name);
    lemma_one(scan, seq!['<'] + name, blank);
}

/// A start tag with more than a name opens its element with `>`, and leaves it closed with `/>`; what
/// is neither of the two nor a quote leaves the scan in it.
pub proof fn tags_with_attributes_end_alike(scan: ScanView, c: char)
    requires
        scan.mode == XmlMode::InTag,
    ensures
        scan_from(scan, seq!['>']) == (ScanView {
            mode: XmlMode::Content,
            open: scan.open.push(scan.name),
            name: scan.name,
        }),
        scan_from(scan, seq!['/', '>']) == (ScanView {
            mode: XmlMode::Content,
            open: scan.open,
            name: scan.name,
        }),
        c != '>' && c != '/' && c != '"' && c != '\'' ==> scan_from(scan, seq![c]) == scan,
{
    let nothing = Seq::<char>::empty();
    assert(nothing + seq!['>'] =~= seq!['>']);
    assert(nothing + seq![c] =~= seq![c]);
    lemma_one(scan, nothing, '>');
    lemma_one(scan, nothing, c);
    lemma_two(scan, '/', '>');
}

proof fn lemma_quoted(scan: ScanView, text: Seq<char>, quote: char)
    requires
        quote == '"' && scan.mode == XmlMode::DoubleQuoted || quote == '\'' && scan.mode
            == XmlMode::SingleQuoted,
        is_without(text, quote),
    ensures
        scan_from(scan, text) == scan,
    decreases text.len(),
{
    if text.len() > 0 {
        let shorter = text.drop_last();
        assert forall|i: int| 0 <= i < shorter.len() implies #[trigger] shorter[i] != quote by {
            assert(shorter[i] == text[i]);
        }
        assert(text[text.len() - 1] != quote);
        lemma_quoted(scan, shorter, quote);
    }
}

/// A value between quotes changes nothing, whatever it holds but the quote itself: neither `>` nor `/`
/// nor the other quote ends the tag in it. A value that is not ended leaves the scan in it.
pub proof fn quoted_values_change_nothing(scan: ScanView, value: Seq<char>, quote: char)
    requires
        scan.mode == XmlMode::InTag,
        quote == '"' || quote == '\'',
        is_without(value, quote),
    ensures
        scan_from(scan, seq![quote] + value + seq![quote]) == scan,
        quote == '"' ==> scan_from(scan, seq![quote] + value) == (ScanView {
            mode: XmlMode::DoubleQuoted,
            ..scan
        }),
        quote == '\'' ==> scan_from(scan, seq![quote] + value) == (ScanView {
            mode: XmlMode::SingleQuoted,
            ..scan
        }),
{
    let quoted = ScanView {
        mode: if quote == '"' {
            XmlMode::DoubleQuoted
        } else {
            XmlMode::SingleQuoted
        },
        ..scan
    };
    lemma_scan_first(scan, quote, value);
    assert(scan_step(scan, quote) == quoted);
    lemma_quoted(quoted, value, quote);
    lemma_one(scan, seq![quote] + value, quote);
}

proof fn lemma_close_name(scan: ScanView, text: Seq<char>)
    requires
        scan.mode == XmlMode::CloseTag,
        is_without(text, '>'),
    ensures
        scan_from(scan, text) == scan,
    decreases text.len(),
{
    if text.len() > 0 {
        let shorter = text.drop_last();
        assert forall|i: int| 0 <= i < shorter.len() implies #[trigger] shorter[i] != '>' by {
            assert(shorter[i] == text[i]);
        }
        assert(text[text.len() - 1] != '>');
        lemma_close_name(scan, shorter);
    }
}

/// An end tag closes the innermost element.
pub proof fn end_tags_close(scan: ScanView, name: Seq<char>)
    requires
        scan.mode == XmlMode::Content,
        is_without(name, '>'),
    ensures
        ({
            let after = scan_from(scan, seq!['<'] + seq!['/'] + name + seq!['>']);
            &&& after.mode == XmlMode::Content
            &&& scan.open.len() > 0 ==> after.open == scan.open.drop_last()
            &&& scan.open.len() == 0 ==> after.open == scan.open
        }),
{
    let nothing = Seq::<char>::empty();
    let closing = ScanView { mode: XmlMode::CloseTag, ..scan };
    assert(nothing + seq!['<'] =~= seq!['<']);
    lemma_one(scan, nothing, '<');
    lemma_one(scan, seq!['<'], '/');
    lemma_scan_concat(scan, seq!['<'] + seq!['/'], name);
    lemma_close_name(closing, name);
    lemma_one(scan, seq!['<'] + seq!['/'] + name, '>');
}

/// Whether a text has no two of a character in a row, and none at its end.
pub open spec fn is_never_double(text: Seq<char>, c: char) -> bool {
    &&& forall|i: int, j: int|
        0 <= i < text.len() && j == i + 1 && j < text.len() ==> !(#[trigger] text[i] == c
            && #[trigger] text[j] == c)
    &&& text.len() > 0 ==> text.last() != c
}

proof fn lemma_comment(scan: ScanView, text: Seq<char>)
    requires
        scan.mode == XmlMode::Comment,
        forall|i: int, j: int|
            0 <= i < text.len() && j == i + 1 && j < text.len() ==> !(#[trigger] text[i] == '-'
                && #[trigger] text[j] == '-'),
    ensures
        scan_from(scan, text) == (ScanView {
            mode: if text.len() > 0 && text.last() == '-' {
                XmlMode::CommentDash
            } else {
                XmlMode::Comment
            },
            ..scan
        }),
    decreases text.len(),
{
    if text.len() > 0 {
        let shorter = text.drop_last();
        assert forall|i: int, j: int|
            0 <= i < shorter.len() && j == i + 1 && j < shorter.len() implies !(
        #[trigger] shorter[i] == '-' && #[trigger] shorter[j] == '-') by {
            assert(shorter[i] == text[i] && shorter[j] == text[j]);
        }
        lemma_comment(scan, shorter);
        if text.len() > 1 {
            let (i, j) = (text.len() - 2, text.len() - 1);
            assert(!(text[i] == '-' && text[j] == '-'));
            assert(shorter.last() == text[i]);
        }
    }
}

/// A comment changes nothing, whatever tags stand in it.
pub proof fn comments_change_nothing(scan: ScanView, text: Seq<char>)
    requires
        scan.mode == XmlMode::Content,
        is_never_double(text, '-'),
    ensures
        scan_from(scan, seq!['<', '!', '-', '-'] + text + seq!['-', '-', '>']) == scan,
{
    let comment = ScanView { mode: XmlMode::Comment, ..scan };
    lemma_four(scan, '<', '!', '-', '-');
    lemma_comment(comment, text);
    lemma_three(comment, '-', '-', '>');
    lemma_three_parts(scan, seq!['<', '!', '-', '-'], text, seq!['-', '-', '>']);
}

proof fn lemma_three_parts(scan: ScanView, start: Seq<char>, text: Seq<char>, end: Seq<char>)
    ensures
        scan_from(scan, start + text + end) == scan_from(
            scan_from(scan_from(scan, start), text),
            end,
        ),
{
    lemma_scan_concat(scan, start + text, end);
    lemma_scan_concat(scan, start, text);
}

proof fn lemma_two(scan: ScanView, a: char, b: char)
    ensures
        scan_from(scan, seq![a, b]) == scan_step(scan_step(scan, a), b),
{
    let nothing = Seq::<char>::empty();
    assert(nothing + seq![a] =~= seq![a]);
    assert(seq![a] + seq![b] =~= seq![a, b]);
    lemma_one(scan, nothing, a);
    lemma_one(scan, seq![a], b);
}

proof fn lemma_three(scan: ScanView, a: char, b: char, c: char)
    ensures
        scan_from(scan, seq![a, b, c]) == scan_step(scan_step(scan_step(scan, a), b), c),
{
    assert(seq![a, b] + seq![c] =~= seq![a, b, c]);
    lemma_two(scan, a, b);
    lemma_one(scan, seq![a, b], c);
}

proof fn lemma_four(scan: ScanView, a: char, b: char, c: char, d: char)
    ensures
        scan_from(scan, seq![a, b, c, d]) == scan_step(
            scan_step(scan_step(scan_step(scan, a), b), c),
            d,
        ),
{
    assert(seq![a, b, c] + seq![d] =~= seq![a, b, c, d]);
    lemma_three(scan, a, b, c);
    lemma_one(scan, seq![a, b, c], d);
}

proof fn lemma_data(scan: ScanView, text: Seq<char>)
    requires
        scan.mode == XmlMode::CData,
        forall|i: int, j: int|
            0 <= i < text.len() && j == i + 1 && j < text.len() ==> !(#[trigger] text[i] == ']'
                && #[trigger] text[j] == ']'),
    ensures
        scan_from(scan, text) == (ScanView {
            mode: if text.len() > 0 && text.last() == ']' {
                XmlMode::CDataBracket
            } else {
                XmlMode::CData
            },
            ..scan
        }),
    decreases text.len(),
{
    if text.len() > 0 {
        let shorter = text.drop_last();
        assert forall|i: int, j: int|
            0 <= i < shorter.len() && j == i + 1 && j < shorter.len() implies !(
        #[trigger] shorter[i] == ']' && #[trigger] shorter[j] == ']') by {
            assert(shorter[i] == text[i] && shorter[j] == text[j]);
        }
        lemma_data(scan, shorter);
        if text.len() > 1 {
            let (i, j) = (text.len() - 2, text.len() - 1);
            assert(!(text[i] == ']' && text[j] == ']'));
            assert(shorter.last() == text[i]);
        }
    }
}

/// A section of character data changes nothing, whatever tags stand in it.
pub proof fn character_data_changes_nothing(scan: ScanView, text: Seq<char>)
    requires
        scan.mode == XmlMode::Content,
        is_never_double(text, ']'),
    ensures
        scan_from(scan, seq!['<', '!', '['] + text + seq![']', ']', '>']) == scan,
{
    let data = ScanView { mode: XmlMode::CData, ..scan };
    lemma_three(scan, '<', '!', '[');
    lemma_data(data, text);
    lemma_three(data, ']', ']', '>');
    lemma_three_parts(scan, seq!['<', '!', '['], text, seq![']', ']', '>']);
}

proof fn lemma_instruction(scan: ScanView, text: Seq<char>)
    requires
        scan.mode == XmlMode::Instruction,
        forall|i: int, j: int|
            0 <= i < text.len() && j == i + 1 && j < text.len() ==> !(#[trigger] text[i] == '?'
                && #[trigger] text[j] == '>'),
    ensures
        scan_from(scan, text) == (ScanView {
            mode: if text.len() > 0 && text.last() == '?' {
                XmlMode::InstructionMark
            } else {
                XmlMode::Instruction
            },
            ..scan
        }),
    decreases text.len(),
{
    if text.len() > 0 {
        let shorter = text.drop_last();
        assert forall|i: int, j: int|
            0 <= i < shorter.len() && j == i + 1 && j < shorter.len() implies !(
        #[trigger] shorter[i] == '?' && #[trigger] shorter[j] == '>') by {
            assert(shorter[i] == text[i] && shorter[j] == text[j]);
        }
        lemma_instruction(scan, shorter);
        if text.len() > 1 {
            let (i, j) = (text.len() - 2, text.len() - 1);
            assert(!(text[i] == '?' && text[j] == '>'));
            assert(shorter.last() == text[i]);
        }
    }
}

/// A processing instruction, up to the `?>` that ends it, changes nothing.
pub proof fn instructions_change_nothing(scan: ScanView, text: Seq<char>)
    requires
        scan.mode == XmlMode::Content,
        forall|i: int, j: int|
            0 <= i < text.len() && j == i + 1 && j < text.len() ==> !(#[trigger] text[i] == '?'
                && #[trigger] text[j] == '>'),
    ensures
        scan_from(scan, seq!['<', '?'] + text + seq!['?', '>']) == scan,
{
    let instruction = ScanView { mode: XmlMode::Instruction, ..scan };
    let after = scan_from(instruction, text);
    lemma_two(scan, '<', '?');
    lemma_instruction(instruction, text);
    lemma_two(after, '?', '>');
    lemma_three_parts(scan, seq!['<', '?'], text, seq!['?', '>']);
}

proof fn lemma_declaration(scan: ScanView, text: Seq<char>)
    requires
        scan.mode == XmlMode::Declaration,
        is_without(text, '>'),
    ensures
        scan_from(scan, text) == scan,
    decreases text.len(),
{
    if text.len() > 0 {
        let shorter = text.drop_last();
        assert forall|i: int| 0 <= i < shorter.len() implies #[trigger] shorter[i] != '>' by {
            assert(shorter[i] == text[i]);
        }
        assert(text[text.len() - 1] != '>');
        lemma_declaration(scan, shorter);
    }
}

/// A declaration such as `<!DOCTYPE odoo>` changes nothing.
pub proof fn declarations_change_nothing(scan: ScanView, first: char, text: Seq<char>)
    requires
        scan.mode == XmlMode::Content,
        first != '-' && first != '[' && first != '>',
        is_without(text, '>'),
    ensures
        scan_from(scan, seq!['<', '!', first] + text + seq!['>']) == scan,
{
    let declaration = ScanView { mode: XmlMode::Declaration, ..scan };
    lemma_three(scan, '<', '!', first);
    lemma_declaration(declaration, text);
    assert(Seq::<char>::empty() + seq!['>'] =~= seq!['>']);
    lemma_one(declaration, Seq::empty(), '>');
    lemma_three_parts(scan, seq!['<', '!', first], text, seq!['>']);
}

/// The end tags of open elements close the innermost one first, each by its own name.
pub proof fn innermost_elements_end_first(open: Seq<Seq<char>>, name: Seq<char>)
    ensures
        end_tags(Seq::empty()) == Seq::<char>::empty(),
        end_tags(open.push(name)) == seq!['<', '/'] + name + seq!['>'] + end_tags(open),
{
    assert(open.push(name).drop_last() =~= open);
}

/// What is missing at the end of a text is what ends the tag that it is in, a value first, and the end
/// tags of the elements that are open. Nothing can be missing right behind a `<`, and in an end tag, a
/// comment, a section of character data, a declaration or an instruction.
pub proof fn missing_ends_depend_on_the_place(text: Seq<char>)
    ensures
        ({
            let scan = scan_from(scan_start(), text);
            let tags = end_tags(scan.open);
            match scan.mode {
                XmlMode::Content => missing_end(text) == Some(tags),
                XmlMode::OpenName | XmlMode::InTag => missing_end(text) == Some(
                    seq!['/', '>'] + tags,
                ),
                XmlMode::Slash => missing_end(text) == Some(seq!['>'] + tags),
                XmlMode::DoubleQuoted => missing_end(text) == Some(seq!['"', '/', '>'] + tags),
                XmlMode::SingleQuoted => missing_end(text) == Some(seq!['\'', '/', '>'] + tags),
                _ => missing_end(text) is None,
            }
        }),
{
    let scan = scan_from(scan_start(), text);
    assert(Seq::<char>::empty() + end_tags(scan.open) =~= end_tags(scan.open));
}

/// A scan starts in content, without an open element.
pub proof fn scans_start_in_content()
    ensures
        scan_start().mode == XmlMode::Content,
        scan_start().open.len() == 0,
        scan_from(scan_start(), Seq::empty()) == scan_start(),
{
}

/// A repaired text is the text up to the cursor and what is missing at its end, where anything can be.
pub proof fn repairs_add_what_is_missing(text: Seq<char>, offset: int)
    ensures
        ({
            let before = byte_slice(text, 0, offset);
            match missing_end(before) {
                Some(end) => repaired_text(text, offset) == Some(before + end),
                None => repaired_text(text, offset) is None,
            }
        }),
{
}

} // verus!
