//! What holds of a source that is the UTF-8 encoding of a text: its lines
//! are the encodings of the lines of the text.

use crate::chars::{lemma_run_end, run_end, CharClass};
use crate::environment::Variables;
use crate::error::ErrorView;
use crate::secretfile::{binding_of, binding_of_bytes, parsed, table_of, LocationView, Table};
use crate::source::{
    lemma_line_end_is, lemma_lines_from_is_rest, line_after, line_at, lines_from, lines_of,
    without_cr, CR, LF,
};
use vstd::prelude::*;
use vstd::utf8::{
    char_is_scalar, char_u32_cast, encode_scalar, encode_utf8, encode_utf8_decode_utf8,
    encode_utf8_valid_utf8, has_width_1_encoding, last_continuation_byte, leading_byte_width_1,
    leading_byte_width_2, leading_byte_width_3, leading_byte_width_4,
    second_last_continuation_byte, third_last_continuation_byte,
};

verus! {

/// `line` without the carriage return at its end, if it has one.
pub open spec fn text_without_cr(line: Seq<char>) -> Seq<char> {
    if line.len() > 0 && line.last() == '\r' {
        line.drop_last()
    } else {
        line
    }
}

/// The lines of a text.  A line ends with a line feed, or with the end of
/// the text; the line feed is no part of it, nor is a carriage return that
/// stands directly before the line feed.
pub open spec fn text_lines(text: Seq<char>) -> Seq<Seq<char>>
    decreases text.len(),
{
    if text.len() == 0 {
        Seq::empty()
    } else {
        let end = run_end(text, 0, CharClass::Inline);
        if 0 <= end < text.len() {
            seq![text_without_cr(text.take(end))] + text_lines(text.skip(end + 1))
        } else {
            seq![text]
        }
    }
}

/// The UTF-8 encoding of each of `lines`.
pub open spec fn encoded(lines: Seq<Seq<char>>) -> Seq<Seq<u8>> {
    Seq::new(lines.len(), |i: int| encode_utf8(lines[i]))
}

/// The encoding of an ASCII character is the character itself, and the
/// encoding of any other character holds no ASCII byte.
proof fn lemma_scalar_bytes(c: char)
    ensures
        encode_scalar(c as u32).len() > 0,
        (c as u32) <= 0x7f ==> encode_scalar(c as u32) == seq![(c as u32) as u8],
        (c as u32) > 0x7f ==> forall|i: int|
            0 <= i < encode_scalar(c as u32).len() ==> #[trigger] encode_scalar(c as u32)[i]
                >= 0x80,
{
    char_is_scalar(c);
    let s = c as u32;
    if has_width_1_encoding(s) {
        assert(leading_byte_width_1(s) == s as u8) by (bit_vector)
            requires
                s <= 0x7f,
        ;
    } else {
        assert(leading_byte_width_2(s) >= 0x80 && leading_byte_width_3(s) >= 0x80
            && leading_byte_width_4(s) >= 0x80 && last_continuation_byte(s) >= 0x80
            && second_last_continuation_byte(s) >= 0x80 && third_last_continuation_byte(s)
            >= 0x80) by (bit_vector);
    }
}

/// Two characters are the same where their codes are.
proof fn lemma_char_code(c: char, d: char)
    ensures
        c as u32 == d as u32 <==> c == d,
{
    char_u32_cast(c, c as u32);
    char_u32_cast(d, d as u32);
}

/// The encoding of one character.
proof fn lemma_encode_one(c: char)
    ensures
        encode_utf8(seq![c]) == encode_scalar(c as u32),
{
    assert(seq![c].drop_first() =~= Seq::<char>::empty());
    assert(encode_utf8(seq![c]) =~= encode_scalar(c as u32) + encode_utf8(Seq::<char>::empty()));
}

/// The encoding of two texts, one after the other, is their encodings, one
/// after the other.
proof fn lemma_encode_concat(a: Seq<char>, b: Seq<char>)
    ensures
        encode_utf8(a + b) == encode_utf8(a) + encode_utf8(b),
    decreases a.len(),
{
    if a.len() == 0 {
        assert(a + b =~= b);
        assert(encode_utf8(a) + encode_utf8(b) =~= encode_utf8(b));
    } else {
        assert((a + b).drop_first() =~= a.drop_first() + b);
        assert((a + b)[0] == a[0]);
        lemma_encode_concat(a.drop_first(), b);
        assert(encode_utf8(a + b) =~= encode_utf8(a) + encode_utf8(b));
    }
}

/// The encoding of a text without a line feed holds no line feed.
proof fn lemma_encoded_line(text: Seq<char>)
    requires
        forall|k: int| 0 <= k < text.len() ==> #[trigger] text[k] != '\n',
    ensures
        forall|i: int| 0 <= i < encode_utf8(text).len() ==> #[trigger] encode_utf8(text)[i] != LF,
        text.len() > 0 ==> encode_utf8(text).len() > 0,
    decreases text.len(),
{
    if text.len() > 0 {
        let first = encode_scalar(text[0] as u32);
        let rest = encode_utf8(text.drop_first());
        lemma_scalar_bytes(text[0]);
        assert(forall|k: int|
            0 <= k < text.drop_first().len() ==> text.drop_first()[k] == text[k + 1]);
        lemma_encoded_line(text.drop_first());
        let bytes = encode_utf8(text);
        assert(bytes == first + rest);
        lemma_char_code(text[0], '\n');
        assert forall|i: int| 0 <= i < bytes.len() implies #[trigger] bytes[i] != LF by {
            if i < first.len() {
                assert(bytes[i] == first[i]);
                if text[0] as u32 <= 0x7f {
                    assert(first[0] == (text[0] as u32) as u8);
                } else {
                    assert(first[i] >= 0x80);
                }
            } else {
                assert(bytes[i] == rest[i - first.len()]);
            }
        }
    }
}

/// To take the carriage return from the end of an encoded line is to encode
/// the line without the carriage return at its end.
proof fn lemma_encoded_without_cr(line: Seq<char>)
    ensures
        without_cr(encode_utf8(line)) == encode_utf8(text_without_cr(line)),
{
    if line.len() > 0 {
        let c = line.last();
        let last = encode_scalar(c as u32);
        let before = encode_utf8(line.drop_last());
        assert(line =~= line.drop_last() + seq![c]);
        lemma_encode_concat(line.drop_last(), seq![c]);
        lemma_encode_one(c);
        lemma_scalar_bytes(c);
        let bytes = encode_utf8(line);
        assert(bytes == before + last);
        assert(bytes.last() == last[last.len() - 1]);
        lemma_char_code(c, '\r');
        if c as u32 <= 0x7f {
            assert(last[0] == (c as u32) as u8);
        } else {
            assert(last[last.len() - 1] >= 0x80);
        }
        if c == '\r' {
            assert(bytes.last() == CR);
            assert(bytes.drop_last() =~= before);
            assert(text_without_cr(line) == line.drop_last());
        } else {
            assert(bytes.last() != CR);
        }
    }
}

/// The lines of an encoded text are the encoded lines of the text.
pub proof fn law_lines_of_text(text: Seq<char>)
    ensures
        lines_of(encode_utf8(text)) == encoded(text_lines(text)),
    decreases text.len(),
{
    let bytes = encode_utf8(text);
    if text.len() == 0 {
        assert(encoded(text_lines(text)) =~= Seq::<Seq<u8>>::empty());
    } else {
        let end = run_end(text, 0, CharClass::Inline);
        lemma_run_end(text, 0, CharClass::Inline);
        let head = text.take(end);
        assert(forall|k: int| 0 <= k < head.len() ==> head[k] == text[k]);
        lemma_encoded_line(head);
        let at = encode_utf8(head).len() as int;
        if end < text.len() {
            let tail = text.skip(end + 1);
            assert(text =~= head + seq!['\n'] + tail);
            lemma_encode_concat(head + seq!['\n'], tail);
            lemma_encode_concat(head, seq!['\n']);
            lemma_encode_one('\n');
            lemma_scalar_bytes('\n');
            assert(bytes =~= encode_utf8(head) + seq![LF] + encode_utf8(tail));
            lemma_line_end_is(bytes, 0, at);
            lemma_lines_from_is_rest(bytes, at + 1);
            assert(bytes.skip(at + 1) =~= encode_utf8(tail));
            assert(bytes.subrange(0, at) =~= encode_utf8(head));
            law_lines_of_text(tail);
            lemma_encoded_without_cr(head);
            assert(line_at(bytes, 0) == encode_utf8(text_without_cr(head)));
            assert(line_after(bytes, 0) == at + 1);
            assert(encoded(seq![text_without_cr(head)] + text_lines(tail)) =~= seq![
                encode_utf8(text_without_cr(head)),
            ] + encoded(text_lines(tail)));
        } else {
            assert(head =~= text);
            lemma_line_end_is(bytes, 0, at);
            assert(bytes.subrange(0, at) =~= bytes);
            assert(line_at(bytes, 0) == bytes);
            assert(line_after(bytes, 0) == at);
            assert(lines_from(bytes, at) =~= Seq::<Seq<u8>>::empty());
            assert(lines_of(bytes) =~= seq![bytes]);
            assert(encoded(seq![text]) =~= seq![bytes]);
        }
    }
}

/// An encoded line says what the line says.
pub proof fn law_encoded_line_is_read(line: Seq<char>, env: Variables)
    ensures
        binding_of_bytes(encode_utf8(line), env) == binding_of(line, env),
{
    encode_utf8_valid_utf8(line);
    encode_utf8_decode_utf8(line);
}

/// A text is read line by line.
pub proof fn law_text_is_read_by_lines(text: Seq<char>, env: Variables)
    ensures
        parsed(encode_utf8(text), env) == table_of(encoded(text_lines(text)), env),
{
    law_lines_of_text(text);
}

/// A text of one line, without a line feed, is read as that line: it gives
/// the error of the line, or the table of what the line binds.
pub proof fn law_single_line_is_read(line: Seq<char>, env: Variables)
    requires
        line.len() > 0,
        forall|k: int| 0 <= k < line.len() ==> #[trigger] line[k] != '\n',
    ensures
        parsed(encode_utf8(line), env) == match binding_of(line, env) {
            Err(error) => Err::<Table, ErrorView>(error),
            Ok(None) => Ok(Map::empty()),
            Ok(Some((name, location))) => Ok(
                Map::<Seq<char>, LocationView>::empty().insert(name, location),
            ),
        },
{
    law_lines_of_text(line);
    lemma_run_end(line, 0, CharClass::Inline);
    assert(text_lines(line) =~= seq![line]);
    let lines = encoded(seq![line]);
    assert(lines.drop_last() =~= Seq::<Seq<u8>>::empty());
    assert(table_of(Seq::<Seq<u8>>::empty(), env) == Ok::<Table, ErrorView>(Map::empty()));
    assert(lines.last() == encode_utf8(line));
    law_encoded_line_is_read(line, env);
}

} // verus!
