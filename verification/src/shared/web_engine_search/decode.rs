//! Text codecs of the web search: tag stripping, entity decoding and form
//! coding.

use vstd::prelude::*;
use vstd::utf8::{encode_utf8, is_ascii_chars};
use crate::foreign::text_of_bytes;
use crate::text::{bytes_at_most, chars_of, collapsed, find_in, read_number, same_chars, trim_bounds};
#[allow(unused_imports)]
use crate::foreign::utf8_lossy;
#[allow(unused_imports)]
use crate::text::{
    byte_len, collapse, decimal, digit_value, find_from, law_numbers_round_trip,
    lemma_decimal_digits, lemma_find_from, lemma_trim, lemma_trim_fixed, number_value, trim,
};

verus! {

/// Whether the text ends inside a tag.
pub open spec fn in_tag(s: Seq<char>) -> bool
    decreases s.len(),
{
    if s.len() == 0 {
        false
    } else if s.last() == '<' {
        true
    } else if s.last() == '>' {
        false
    } else {
        in_tag(s.drop_last())
    }
}

/// The text without its tags.
pub open spec fn without_tags(s: Seq<char>) -> Seq<char>
    decreases s.len(),
{
    if s.len() == 0 {
        Seq::empty()
    } else if s.last() == '<' || s.last() == '>' || in_tag(s) {
        without_tags(s.drop_last())
    } else {
        without_tags(s.drop_last()).push(s.last())
    }
}

/// Drops everything from `<` to `>`.
pub fn strip_tags(raw: &str) -> (r: String)
    ensures
        r@ == without_tags(raw@),
{
    let chars = chars_of(raw);
    let mut out = String::new();
    let mut inside = false;
    let mut i: usize = 0;
    while i < chars.len()
        invariant
            chars@ == raw@,
            i <= raw@.len(),
            inside == in_tag(raw@.take(i as int)),
            out@ == without_tags(raw@.take(i as int)),
        decreases raw@.len() - i,
    {
        let c = chars[i];
        assert(raw@.take(i + 1).drop_last() =~= raw@.take(i as int));
        if c == '<' {
            inside = true;
        } else if c == '>' {
            inside = false;
        } else if !inside {
            out.push(c);
        }
        i += 1;
    }
    assert(raw@.take(i as int) =~= raw@);
    out
}

/// What is left after the tags are gone holds no angle bracket.
pub proof fn law_no_tags_left(s: Seq<char>)
    ensures
        !without_tags(s).contains('<'),
        !without_tags(s).contains('>'),
    decreases s.len(),
{
    if s.len() > 0 {
        law_no_tags_left(s.drop_last());
    }
}

/// The character that an entity name stands for.
pub open spec fn entity_char(name: Seq<char>) -> Option<char> {
    if name == "amp"@ {
        Some('&')
    } else if name == "lt"@ {
        Some('<')
    } else if name == "gt"@ {
        Some('>')
    } else if name == "quot"@ {
        Some('"')
    } else if name == "apos"@ {
        Some('\'')
    } else if name == "nbsp"@ {
        Some(' ')
    } else if name.len() > 1 && name[0] == '#' && (name[1] == 'x' || name[1] == 'X') {
        scalar(number_value(trim(name.skip(2)), 16, u32::MAX as nat))
    } else if name.len() > 0 && name[0] == '#' {
        scalar(number_value(trim(name.skip(1)), 10, u32::MAX as nat))
    } else {
        None
    }
}

/// The character with this code point.
pub open spec fn scalar(n: Option<nat>) -> Option<char> {
    match n {
        Some(n) => if n <= 0xd7ff || 0xe000 <= n <= 0x10ffff {
            Some(n as char)
        } else {
            None
        },
        None => None,
    }
}

/// How far behind `&` the semicolon of an entity may stand, in bytes.
pub const MAX_ENTITY_BYTES: usize = 32;

/// The entity that the text behind `&` begins with: its character and how
/// many characters it takes, the semicolon among them.
pub open spec fn leading_entity(after: Seq<char>) -> Option<(char, int)> {
    match find_from(after, seq![';'], 0) {
        Some(semi) => if byte_len(after.take(semi)) <= MAX_ENTITY_BYTES {
            match entity_char(after.take(semi)) {
                Some(c) => Some((c, semi + 1)),
                None => None,
            }
        } else {
            None
        },
        None => None,
    }
}

/// The text with its entities replaced by their characters. A `&` that opens
/// no entity stays.
pub open spec fn entities_replaced(s: Seq<char>) -> Seq<char>
    decreases s.len(),
{
    if s.len() == 0 {
        Seq::empty()
    } else if s[0] != '&' {
        seq![s[0]] + entities_replaced(s.drop_first())
    } else {
        match leading_entity(s.drop_first()) {
            Some((c, n)) => if 0 < n <= s.len() - 1 {
                seq![c] + entities_replaced(s.skip(1 + n))
            } else {
                seq!['&'] + entities_replaced(s.drop_first())
            },
            None => seq!['&'] + entities_replaced(s.drop_first()),
        }
    }
}

/// A text without entities is kept as it is, white space and all.
pub proof fn lemma_plain_text_is_kept(s: Seq<char>)
    requires
        !s.contains('&'),
    ensures
        entities_replaced(s) == s,
    decreases s.len(),
{
    if s.len() > 0 {
        assert(s.contains(s[0]));
        assert forall|i: int| 0 <= i < s.drop_first().len() implies s.drop_first()[i] != '&' by {
            assert(s.contains(s[i + 1]));
        }
        lemma_plain_text_is_kept(s.drop_first());
        assert(seq![s[0]] + s.drop_first() =~= s);
    } else {
        assert(s =~= Seq::empty());
    }
}

/// The text with its entities decoded and its white space folded.
pub open spec fn entities_decoded(s: Seq<char>) -> Seq<char> {
    collapse(entities_replaced(s))
}

/// The text of a piece of HTML.
pub open spec fn html_text(s: Seq<char>) -> Seq<char> {
    entities_decoded(without_tags(s))
}

fn char_of(n: Option<u64>) -> (r: Option<char>)
    requires
        match n {
            Some(n) => n <= u32::MAX,
            None => true,
        },
    ensures
        r == scalar(
            match n {
                Some(n) => Some(n as nat),
                None => None,
            },
        ),
{
    match n {
        Some(n) => char::from_u32(n as u32),
        None => None,
    }
}

fn is_name(chars: &[char], name: &str) -> (r: bool)
    ensures
        r == (chars@ == name@),
{
    same_chars(chars, chars_of(name).as_slice())
}

/// The character that an entity name stands for.
pub fn entity_of(name: &[char]) -> (r: Option<char>)
    ensures
        r == entity_char(name@),
{
    if is_name(name, "amp") {
        return Some('&');
    }
    if is_name(name, "lt") {
        return Some('<');
    }
    if is_name(name, "gt") {
        return Some('>');
    }
    if is_name(name, "quot") {
        return Some('"');
    }
    if is_name(name, "apos") {
        return Some('\'');
    }
    if is_name(name, "nbsp") {
        return Some(' ');
    }
    if name.len() > 1 && name[0] == '#' && (name[1] == 'x' || name[1] == 'X') {
        let rest = vstd::slice::slice_subrange(name, 2, name.len());
        assert(rest@ =~= name@.skip(2));
        let (a, b) = trim_bounds(rest);
        char_of(read_number(rest, a, b, 16, 0xffff_ffff))
    } else if name.len() > 0 && name[0] == '#' {
        let rest = vstd::slice::slice_subrange(name, 1, name.len());
        assert(rest@ =~= name@.skip(1));
        let (a, b) = trim_bounds(rest);
        char_of(read_number(rest, a, b, 10, 0xffff_ffff))
    } else {
        None
    }
}

/// Decodes named and numeric entities; every other character is kept. A `&`
/// without a semicolon in reach, or with an unknown name, stays as it is.
pub fn replace_entities(raw: &str) -> (r: String)
    ensures
        r@ == entities_replaced(raw@),
{
    let chars = chars_of(raw);
    let semicolon: Vec<char> = vec![';'];
    assert(semicolon@ =~= seq![';']);
    let mut out = String::new();
    let mut i: usize = 0;
    assert(raw@.skip(0) =~= raw@);
    assert(out@ + entities_replaced(raw@.skip(0)) =~= entities_replaced(raw@));
    while i < chars.len()
        invariant
            chars@ == raw@,
            i <= raw@.len(),
            semicolon@ == seq![';'],
            out@ + entities_replaced(raw@.skip(i as int)) == entities_replaced(raw@),
        decreases raw@.len() - i,
    {
        let ghost s = raw@.skip(i as int);
        let ghost so_far = out@;
        assert(s.drop_first() =~= raw@.skip(i + 1));
        if chars[i] != '&' {
            out.push(chars[i]);
            i += 1;
            assert(out@ + entities_replaced(raw@.skip(i as int)) =~= so_far + entities_replaced(s));
        } else {
            let after = vstd::slice::slice_subrange(chars.as_slice(), i + 1, chars.len());
            assert(after@ =~= s.drop_first());
            let mut found: Option<(char, usize)> = None;
            match find_in(after, semicolon.as_slice(), 0) {
                Some(semi) => {
                    proof {
                        lemma_find_from(after@, seq![';'], 0);
                    }
                    if bytes_at_most(after, semi, MAX_ENTITY_BYTES) {
                        let name = vstd::slice::slice_subrange(after, 0, semi);
                        assert(name@ =~= after@.take(semi as int));
                        match entity_of(name) {
                            Some(c) => {
                                found = Some((c, semi + 1));
                            },
                            None => {},
                        }
                    }
                },
                None => {},
            }
            match found {
                Some((c, n)) => {
                    assert(leading_entity(s.drop_first()) == Some((c, n as int)));
                    out.push(c);
                    assert(s.skip(1 + n) =~= raw@.skip(i + 1 + n));
                    i = i + 1 + n;
                },
                None => {
                    assert(leading_entity(s.drop_first()) is None);
                    out.push('&');
                    i += 1;
                },
            }
            assert(out@ + entities_replaced(raw@.skip(i as int)) =~= so_far + entities_replaced(s));
        }
    }
    assert(out@ =~= entities_replaced(raw@));
    out
}

/// Decodes named and numeric entities and folds white space.
pub fn decode_entities(raw: &str) -> (r: String)
    ensures
        r@ == entities_decoded(raw@),
{
    collapsed(replace_entities(raw).as_str())
}

/// The text of a piece of HTML: tags stripped, entities decoded, white space
/// folded.
pub fn decode_html_text(raw: &str) -> (r: String)
    ensures
        r@ == html_text(raw@),
{
    decode_entities(strip_tags(raw).as_str())
}

/// Folds white space.
pub fn collapse_whitespace(raw: &str) -> (r: String)
    ensures
        r@ == collapse(raw@),
{
    collapsed(raw)
}

/// The bytes that stand for themselves in a form: letters, digits and
/// `-_.~`.
pub open spec fn is_unreserved(b: u8) -> bool {
    ||| 0x41 <= b <= 0x5a
    ||| 0x61 <= b <= 0x7a
    ||| 0x30 <= b <= 0x39
    ||| b == 0x2d
    ||| b == 0x5f
    ||| b == 0x2e
    ||| b == 0x7e
}

/// The hexadecimal digit of a number below sixteen.
pub open spec fn hex_digit(n: nat) -> char {
    if n < 10 {
        (('0' as nat) + n) as char
    } else {
        (('A' as nat) + n - 10) as char
    }
}

/// How one byte is written in a form.
pub open spec fn escape(b: u8) -> Seq<char> {
    if is_unreserved(b) {
        seq![b as char]
    } else if b == 0x20 {
        seq!['+']
    } else {
        seq!['%', hex_digit(b as nat / 16), hex_digit(b as nat % 16)]
    }
}

/// How bytes are written in a form.
pub open spec fn escaped(bytes: Seq<u8>) -> Seq<char>
    decreases bytes.len(),
{
    if bytes.len() == 0 {
        Seq::empty()
    } else {
        escape(bytes[0]) + escaped(bytes.drop_first())
    }
}

/// How a text is written in a form.
pub open spec fn form_encoded(s: Seq<char>) -> Seq<char> {
    escaped(encode_utf8(s))
}

fn hex_char(n: u8) -> (r: char)
    requires
        n < 16,
    ensures
        r == hex_digit(n as nat),
{
    if n < 10 {
        (0x30u8 + n) as char
    } else {
        (0x41u8 + (n - 10)) as char
    }
}

/// Writes a text for a form: letters, digits and `-_.~` stay, a blank
/// becomes `+`, every other byte becomes `%` and two capital hexadecimal
/// digits.
pub fn percent_encode(raw: &str) -> (r: String)
    ensures
        r@ == form_encoded(raw@),
{
    let bytes = raw.as_bytes();
    let mut out = String::new();
    let mut i: usize = 0;
    assert(bytes@.skip(0) =~= bytes@);
    assert(out@ + escaped(bytes@.skip(0)) =~= escaped(bytes@));
    while i < bytes.len()
        invariant
            i <= bytes@.len(),
            out@ + escaped(bytes@.skip(i as int)) == escaped(bytes@),
        decreases bytes@.len() - i,
    {
        let b: u8 = bytes[i];
        let ghost so_far = out@;
        let ghost s = bytes@.skip(i as int);
        if (0x41 <= b && b <= 0x5a) || (0x61 <= b && b <= 0x7a) || (0x30 <= b && b <= 0x39) || b
            == 0x2d || b == 0x5f || b == 0x2e || b == 0x7e {
            out.push(b as char);
        } else if b == 0x20 {
            out.push('+');
        } else {
            out.push('%');
            out.push(hex_char(b / 16));
            out.push(hex_char(b % 16));
        }
        i += 1;
        assert(s.drop_first() =~= bytes@.skip(i as int));
        assert(out@ =~= so_far + escape(b));
        assert(out@ + escaped(bytes@.skip(i as int)) =~= so_far + escaped(s));
    }
    assert(out@ =~= escaped(bytes@));
    out
}

/// The value of a hexadecimal digit.
pub open spec fn hex_value(b: u8) -> Option<u8> {
    if 0x30 <= b <= 0x39 {
        Some((b - 0x30) as u8)
    } else if 0x61 <= b <= 0x66 {
        Some((b - 0x61 + 10) as u8)
    } else if 0x41 <= b <= 0x46 {
        Some((b - 0x41 + 10) as u8)
    } else {
        None
    }
}

/// The value of a hexadecimal digit.
pub fn hex_val(byte: u8) -> (r: Option<u8>)
    ensures
        r == hex_value(byte),
{
    if 0x30 <= byte && byte <= 0x39 {
        Some(byte - 0x30)
    } else if 0x61 <= byte && byte <= 0x66 {
        Some(byte - 0x61 + 10)
    } else if 0x41 <= byte && byte <= 0x46 {
        Some(byte - 0x41 + 10)
    } else {
        None
    }
}

/// The bytes that a form value writes. A `%` without two hexadecimal digits
/// behind it stands for itself.
pub open spec fn unescaped(bytes: Seq<u8>) -> Seq<u8>
    decreases bytes.len(),
{
    if bytes.len() == 0 {
        Seq::empty()
    } else if bytes[0] == 0x25 && bytes.len() > 2 && hex_value(bytes[1]) is Some && hex_value(
        bytes[2],
    ) is Some {
        seq![(hex_value(bytes[1])->0 * 16 + hex_value(bytes[2])->0) as u8] + unescaped(
            bytes.skip(3),
        )
    } else if bytes[0] == 0x2b {
        seq![0x20u8] + unescaped(bytes.drop_first())
    } else {
        seq![bytes[0]] + unescaped(bytes.drop_first())
    }
}

/// The bytes that a form value writes.
pub open spec fn form_bytes(raw: Seq<char>) -> Seq<u8> {
    unescaped(encode_utf8(raw))
}

/// Reads a form value: `%` and two hexadecimal digits are one byte, `+` is a
/// blank. The bytes are read as UTF-8.
pub fn percent_decode(raw: &str) -> (r: String)
    ensures
        r@ == utf8_lossy(form_bytes(raw@)),
        vstd::utf8::valid_utf8(form_bytes(raw@)) ==> r@ == vstd::utf8::decode_utf8(
            form_bytes(raw@),
        ),
        forall|s: Seq<char>| raw@ == #[trigger] form_encoded(s) ==> r@ == s,
{
    let bytes = raw.as_bytes();
    let mut out: Vec<u8> = Vec::new();
    let mut i: usize = 0;
    assert(bytes@.skip(0) =~= bytes@);
    assert(out@ + unescaped(bytes@.skip(0)) =~= unescaped(bytes@));
    while i < bytes.len()
        invariant
            i <= bytes@.len(),
            out@ + unescaped(bytes@.skip(i as int)) == unescaped(bytes@),
        decreases bytes@.len() - i,
    {
        let ghost so_far = out@;
        let ghost s = bytes@.skip(i as int);
        assert(s.drop_first() =~= bytes@.skip(i + 1));
        let mut pair: Option<(u8, u8)> = None;
        if bytes[i] == 0x25 && bytes.len() - i > 2 {
            assert(s[1] == bytes@[i + 1] && s[2] == bytes@[i + 2]);
            match (hex_val(bytes[i + 1]), hex_val(bytes[i + 2])) {
                (Some(h), Some(l)) => {
                    pair = Some((h, l));
                },
                _ => {},
            }
        }
        match pair {
            Some((h, l)) => {
                assert(s.skip(3) =~= bytes@.skip(i + 3));
                out.push(h * 16 + l);
                i += 3;
            },
            None => {
                if bytes[i] == 0x2b {
                    out.push(0x20);
                } else {
                    out.push(bytes[i]);
                }
                i += 1;
            },
        }
        assert(out@ + unescaped(bytes@.skip(i as int)) =~= so_far + unescaped(s));
    }
    assert(out@ =~= unescaped(bytes@));
    proof {
        assert forall|s: Seq<char>| raw@ == #[trigger] form_encoded(s) implies {
            &&& vstd::utf8::valid_utf8(out@)
            &&& vstd::utf8::decode_utf8(out@) == s
        } by {
            law_form_coding_round_trips(s);
            vstd::utf8::encode_utf8_valid_utf8(s);
            vstd::utf8::encode_utf8_decode_utf8(s);
        }
    }
    text_of_bytes(out.as_slice())
}

proof fn lemma_escape_ascii(b: u8)
    ensures
        is_ascii_chars(escape(b)),
        escape(b).len() >= 1,
{
}

proof fn lemma_escaped_ascii(bytes: Seq<u8>)
    ensures
        is_ascii_chars(escaped(bytes)),
    decreases bytes.len(),
{
    if bytes.len() > 0 {
        lemma_escape_ascii(bytes[0]);
        lemma_escaped_ascii(bytes.drop_first());
        let a = escape(bytes[0]);
        let b = escaped(bytes.drop_first());
        assert forall|i: int| 0 <= i < (a + b).len() implies '\0' <= #[trigger] (a + b)[i]
            <= '\u{7f}' by {
            if i < a.len() {
                assert((a + b)[i] == a[i]);
            } else {
                assert((a + b)[i] == b[i - a.len()]);
            }
        }
    }
}

proof fn lemma_unescape_escaped(bytes: Seq<u8>)
    ensures
        unescaped(encode_utf8(escaped(bytes))) == bytes,
    decreases bytes.len(),
{
    let all = escaped(bytes);
    let raw = encode_utf8(all);
    lemma_escaped_ascii(bytes);
    vstd::utf8::is_ascii_chars_encode_utf8(all);
    if bytes.len() > 0 {
        let rest = bytes.drop_first();
        let b = bytes[0];
        let head = escape(b);
        let tail = escaped(rest);
        let tail_raw = encode_utf8(tail);
        lemma_unescape_escaped(rest);
        lemma_escaped_ascii(rest);
        vstd::utf8::is_ascii_chars_encode_utf8(tail);
        assert(raw.skip(head.len() as int) =~= tail_raw) by {
            assert forall|i: int| 0 <= i < tail_raw.len() implies raw.skip(
                head.len() as int,
            )[i] == tail_raw[i] by {
                assert(all[head.len() + i] == tail[i]);
                assert(raw[head.len() + i] == all[head.len() + i] as u8);
                assert(tail_raw[i] == tail[i] as u8);
            }
        }
        assert(all[0] == head[0]);
        assert(raw[0] == head[0] as u8);
        if is_unreserved(b) || b == 0x20 {
            assert(raw.drop_first() =~= raw.skip(1));
            assert(unescaped(raw) == seq![b] + rest);
        } else {
            assert(all[1] == head[1] && all[2] == head[2]);
            assert(raw[1] == head[1] as u8 && raw[2] == head[2] as u8);
            assert(unescaped(raw) == seq![b] + rest);
        }
        assert(seq![b] + rest =~= bytes);
    } else {
        assert(unescaped(raw) =~= bytes);
    }
}

/// A form value never holds the characters that part the fields of a form.
pub proof fn lemma_encoded_fields_stay_apart(s: Seq<char>)
    ensures
        forall|i: int|
            0 <= i < form_encoded(s).len() ==> (#[trigger] form_encoded(s)[i]) != '&'
                && form_encoded(s)[i] != '=',
{
    lemma_no_separators(encode_utf8(s));
}

proof fn lemma_no_separators(bytes: Seq<u8>)
    ensures
        forall|i: int|
            0 <= i < escaped(bytes).len() ==> (#[trigger] escaped(bytes)[i]) != '&' && escaped(
                bytes,
            )[i] != '=',
    decreases bytes.len(),
{
    if bytes.len() > 0 {
        let a = escape(bytes[0]);
        let b = escaped(bytes.drop_first());
        lemma_no_separators(bytes.drop_first());
        assert forall|i: int| 0 <= i < (a + b).len() implies (#[trigger] (a + b)[i]) != '&' && (a
            + b)[i] != '=' by {
            if i < a.len() {
                assert((a + b)[i] == a[i]);
            } else {
                assert((a + b)[i] == b[i - a.len()]);
            }
        }
    }
}

/// Reading a form value gives back what was written.
pub proof fn law_form_coding_round_trips(s: Seq<char>)
    ensures
        form_bytes(form_encoded(s)) == encode_utf8(s),
{
    lemma_unescape_escaped(encode_utf8(s));
}

/// Text outside of tags is kept and tags are not: `a` holds no angle bracket,
/// and `tag` none that closes.
pub proof fn law_text_outside_tags_is_kept(a: Seq<char>, tag: Seq<char>, b: Seq<char>)
    requires
        !a.contains('<') && !a.contains('>'),
        !tag.contains('>'),
    ensures
        without_tags(a) == a,
        without_tags(a + seq!['<'] + tag + seq!['>'] + b) == a + without_tags(b),
        without_tags(a + seq!['<'] + tag) == a,
        without_tags(a + seq!['>'] + b) == a + without_tags(b),
{
    lemma_untagged(a);
    lemma_inside(a, tag);
    let open = a + seq!['<'] + tag;
    let closed = open.push('>');
    assert(closed.drop_last() =~= open);
    assert(closed.last() == '>');
    lemma_behind_tags(closed, b);
    assert(open + seq!['>'] + b =~= closed + b);
    let stray = a.push('>');
    assert(stray.drop_last() =~= a);
    assert(stray.last() == '>');
    lemma_behind_tags(stray, b);
    assert(a + seq!['>'] + b =~= stray + b);
}

proof fn lemma_untagged(a: Seq<char>)
    requires
        !a.contains('<') && !a.contains('>'),
    ensures
        without_tags(a) == a,
        !in_tag(a),
    decreases a.len(),
{
    if a.len() > 0 {
        let front = a.drop_last();
        assert(a[a.len() - 1] == a.last());
        assert(a.contains(a.last()));
        assert forall|c: char| front.contains(c) implies a.contains(c) by {
            let i = choose|i: int| 0 <= i < front.len() && front[i] == c;
            assert(a[i] == c);
        }
        lemma_untagged(front);
        assert(front.push(a.last()) =~= a);
    } else {
        assert(without_tags(a) =~= a);
    }
}

proof fn lemma_inside(a: Seq<char>, tag: Seq<char>)
    requires
        !a.contains('<') && !a.contains('>'),
        !tag.contains('>'),
    ensures
        without_tags(a + seq!['<'] + tag) == a,
        in_tag(a + seq!['<'] + tag),
    decreases tag.len(),
{
    let all = a + seq!['<'] + tag;
    lemma_untagged(a);
    if tag.len() > 0 {
        let front = tag.drop_last();
        assert forall|c: char| front.contains(c) implies tag.contains(c) by {
            let i = choose|i: int| 0 <= i < front.len() && front[i] == c;
            assert(tag[i] == c);
        }
        lemma_inside(a, front);
        assert(all.drop_last() =~= a + seq!['<'] + front);
        assert(all.last() == tag.last());
        assert(tag[tag.len() - 1] == tag.last());
    } else {
        assert(all.drop_last() =~= a);
        assert(all.last() == '<');
    }
}

proof fn lemma_behind_tags(p: Seq<char>, b: Seq<char>)
    requires
        !in_tag(p),
    ensures
        without_tags(p + b) == without_tags(p) + without_tags(b),
        in_tag(p + b) == in_tag(b),
    decreases b.len(),
{
    let all = p + b;
    if b.len() > 0 {
        lemma_behind_tags(p, b.drop_last());
        assert(all.drop_last() =~= p + b.drop_last());
        assert(all.last() == b.last());
        assert(without_tags(all) =~= without_tags(p) + without_tags(b));
    } else {
        assert(all =~= p);
        assert(without_tags(all) =~= without_tags(p) + without_tags(b));
    }
}

/// Text before an ampersand is kept; an ampersand with the name of a character
/// and a semicolon behind it is that character; and any other ampersand is
/// kept, with what stands behind it.
pub proof fn law_entities_are_replaced(a: Seq<char>, name: Seq<char>, b: Seq<char>)
    requires
        !a.contains('&'),
        !name.contains(';'),
    ensures
        entities_replaced(a) == a,
        entities_replaced(a + b) == a + entities_replaced(b),
        entity_char(name) is Some && byte_len(name) <= 32 ==> entities_replaced(
            seq!['&'] + name + seq![';'] + b,
        ) == seq![entity_char(name)->0] + entities_replaced(b),
        entity_char(name) is None || byte_len(name) > 32 ==> entities_replaced(
            seq!['&'] + name + seq![';'] + b,
        ) == seq!['&'] + entities_replaced(name + seq![';'] + b),
        entities_replaced(seq!['&'] + name) == seq!['&'] + entities_replaced(name),
{
    lemma_plain_text_is_kept(a);
    lemma_plain_before(a, b);
    let s = seq!['&'] + name + seq![';'] + b;
    let after = s.drop_first();
    assert(after =~= name + seq![';'] + b);
    assert forall|j: int| 0 <= j < name.len() implies after[j] != ';' by {
        assert(name.contains(name[j]));
    }
    crate::text::lemma_find_is(after, ';', 0, name.len() as int);
    assert(after.take(name.len() as int) =~= name);
    assert(s.skip(name.len() as int + 2) =~= b);
    let t = seq!['&'] + name;
    assert(t.drop_first() =~= name);
    lemma_find_from(name, seq![';'], 0);
    if let Some(i) = find_from(name, seq![';'], 0) {
        assert(name.subrange(i, i + 1)[0] == name[i]);
        assert(name.contains(name[i]));
    }
}

proof fn lemma_plain_before(a: Seq<char>, b: Seq<char>)
    requires
        !a.contains('&'),
    ensures
        entities_replaced(a + b) == a + entities_replaced(b),
    decreases a.len(),
{
    if a.len() > 0 {
        let rest = a.drop_first();
        assert(a.contains(a[0]));
        assert forall|c: char| rest.contains(c) implies a.contains(c) by {
            let i = choose|i: int| 0 <= i < rest.len() && rest[i] == c;
            assert(a[i + 1] == c);
        }
        lemma_plain_before(rest, b);
        assert((a + b).drop_first() =~= rest + b);
        assert(seq![a[0]] + (rest + entities_replaced(b)) =~= a + entities_replaced(b));
    } else {
        assert(a + b =~= b);
        assert(a + entities_replaced(b) =~= entities_replaced(b));
    }
}

/// The named characters, and those that are named by their number in decimal.
/// A number that is no character names none, nor does a name that is neither
/// one of the six nor a number.
pub proof fn law_entities_name_characters(n: nat, name: Seq<char>)
    ensures
        entity_char("amp"@) == Some('&'),
        entity_char("lt"@) == Some('<'),
        entity_char("gt"@) == Some('>'),
        entity_char("quot"@) == Some('"'),
        entity_char("apos"@) == Some('\''),
        entity_char("nbsp"@) == Some(' '),
        n <= 0xd7ff || 0xe000 <= n <= 0x10ffff ==> entity_char(seq!['#'] + decimal(n)) == Some(
            n as char,
        ),
        0xd800 <= n <= 0xdfff || n > 0x10ffff ==> entity_char(seq!['#'] + decimal(n)) is None,
        name.len() > 4 && name[0] != '#' ==> entity_char(name) is None,
        name.len() < 2 ==> entity_char(name) is None,
{
    reveal_strlit("amp");
    reveal_strlit("lt");
    reveal_strlit("gt");
    reveal_strlit("quot");
    reveal_strlit("apos");
    reveal_strlit("nbsp");
    assert("amp"@[0] == 'a' && "quot"@[0] == 'q' && "apos"@[0] == 'a' && "nbsp"@[0] == 'n');
    assert("lt"@[0] == 'l' && "gt"@[0] == 'g');
    let s = seq!['#'] + decimal(n);
    lemma_decimal_digits(n);
    assert(s[0] == '#');
    assert(s[1] == decimal(n)[0]);
    assert(s.skip(1) =~= decimal(n));
    lemma_trim_fixed(decimal(n));
    law_numbers_round_trip(n, u32::MAX as nat);
    if name.len() < 2 {
        if name.len() == 1 && name[0] == '#' {
            let none = name.skip(1);
            assert(none =~= Seq::empty());
            lemma_trim(none);
            assert(trim(none) =~= Seq::empty());
        }
    }
}

/// A byte of a form: letters, digits and `-_.~` stand for themselves, a blank
/// is a plus sign, and any other byte is a percent sign and its two digits.
pub proof fn law_bytes_are_escaped(b: u8)
    ensures
        ({
            let c = b as char;
            let plain = 'a' <= c <= 'z' || 'A' <= c <= 'Z' || '0' <= c <= '9' || c == '-' || c
                == '_' || c == '.' || c == '~';
            &&& plain ==> escape(b) == seq![c]
            &&& c == ' ' ==> escape(b) == seq!['+']
            &&& !plain && c != ' ' ==> {
                &&& escape(b).len() == 3
                &&& escape(b)[0] == '%'
                &&& match (digit_value(escape(b)[1], 16), digit_value(escape(b)[2], 16)) {
                    (Some(high), Some(low)) => high * 16 + low == b,
                    _ => false,
                }
                &&& !('a' <= escape(b)[1] <= 'f') && !('a' <= escape(b)[2] <= 'f')
            }
        }),
{
}

/// A text is coded byte by byte, in order.
pub proof fn law_forms_are_coded_byte_by_byte(a: Seq<u8>, b: Seq<u8>, byte: u8)
    ensures
        escaped(a + b) == escaped(a) + escaped(b),
        escaped(seq![byte]) == escape(byte),
        escaped(Seq::empty()).len() == 0,
    decreases a.len(),
{
    reveal_with_fuel(escaped, 2);
    assert(seq![byte].drop_first() =~= Seq::empty());
    assert(escaped(seq![byte]) =~= escape(byte));
    if a.len() > 0 {
        law_forms_are_coded_byte_by_byte(a.drop_first(), b, byte);
        assert((a + b).drop_first() =~= a.drop_first() + b);
        assert(escaped(a + b) =~= escaped(a) + escaped(b));
    } else {
        assert(a + b =~= b);
        assert(escaped(a + b) =~= escaped(a) + escaped(b));
    }
}

/// The bytes of a form are read in order: a percent sign with two hexadecimal
/// digits behind it is one byte, a plus sign is a blank, and everything else
/// is kept.
pub proof fn law_forms_are_read_in_order(x: u8, y: u8, z: u8, rest: Seq<u8>)
    ensures
        x != 0x25 && x != 0x2b ==> unescaped(seq![x] + rest) == seq![x] + unescaped(rest),
        unescaped(seq![0x2bu8] + rest) == seq![0x20u8] + unescaped(rest),
        match (digit_value(y as char, 16), digit_value(z as char, 16)) {
            (Some(high), Some(low)) => unescaped(seq![0x25u8, y, z] + rest) == seq![
                (high * 16 + low) as u8,
            ] + unescaped(rest),
            _ => unescaped(seq![0x25u8, y, z] + rest) == seq![0x25u8] + unescaped(
                seq![y, z] + rest,
            ),
        },
        rest.len() < 2 ==> unescaped(seq![0x25u8] + rest) == seq![0x25u8] + unescaped(rest),
        unescaped(Seq::empty()).len() == 0,
{
    let a = seq![x] + rest;
    assert(a.drop_first() =~= rest);
    let b = seq![0x2bu8] + rest;
    assert(b.drop_first() =~= rest);
    let c = seq![0x25u8, y, z] + rest;
    assert(c.skip(3) =~= rest);
    assert(c.drop_first() =~= seq![y, z] + rest);
    assert(c[0] == 0x25 && c[1] == y && c[2] == z);
    let d = seq![0x25u8] + rest;
    assert(d.drop_first() =~= rest);
}

/// The text of a page is its text outside of tags, with the named characters
/// in it and single blanks between its words.
pub proof fn law_page_text_is_read(s: Seq<char>)
    ensures
        html_text(s) == entities_decoded(without_tags(s)),
        crate::text::words(html_text(s)) == crate::text::words(entities_replaced(without_tags(s))),
        crate::text::collapse(html_text(s)) == html_text(s),
{
    let plain = entities_replaced(without_tags(s));
    crate::text::lemma_words(plain);
    crate::text::lemma_words_join(crate::text::words(plain));
    crate::text::law_collapse_is_stable(plain);
}

} // verus!
