//! A one-line description of an item, for lists.
use vstd::prelude::*;
use vstd::string::{StringExecFns, StringSliceAdditionalSpecFns};
use vstd::utf8::*;
use crate::diff::boundary_below;
use crate::doc::utf8_str;
use crate::item::{is_text_content_type, is_text_type, Item};

verus! {

/// Whether `c` has the Unicode `White_Space` property, as `char::is_whitespace`
/// decides.
pub open spec fn is_white_space(c: char) -> bool {
    let u = c as u32;
    ||| 0x9 <= u <= 0xd
    ||| u == 0x20
    ||| u == 0x85
    ||| u == 0xa0
    ||| u == 0x1680
    ||| 0x2000 <= u <= 0x200a
    ||| u == 0x2028
    ||| u == 0x2029
    ||| u == 0x202f
    ||| u == 0x205f
    ||| u == 0x3000
}

/// `s` without its leading white space.
pub open spec fn trim_start(s: Seq<char>) -> Seq<char>
    decreases s.len(),
{
    if s.len() > 0 && is_white_space(s[0]) {
        trim_start(s.drop_first())
    } else {
        s
    }
}

/// `s` without its trailing white space.
pub open spec fn trim_end(s: Seq<char>) -> Seq<char>
    decreases s.len(),
{
    if s.len() > 0 && is_white_space(s.last()) {
        trim_end(s.drop_last())
    } else {
        s
    }
}

/// `s` without its leading and trailing white space.
pub open spec fn trim_of(s: Seq<char>) -> Seq<char> {
    trim_end(trim_start(s))
}

/// Relies on `str::trim`: `s` without its leading and trailing white space.
#[verifier::external_body]
fn trim(s: &str) -> (r: &str)
    ensures
        r@ == trim_of(s@),
{
    s.trim()
}

/// The decimal digits of `n`.
pub open spec fn decimal_of(n: nat) -> Seq<char>
    decreases n,
{
    if n < 10 {
        seq!["0123456789"@[n as int]]
    } else {
        decimal_of(n / 10) + seq!["0123456789"@[(n % 10) as int]]
    }
}

fn push_digit(s: &mut String, d: usize)
    requires
        d < 10,
    ensures
        final(s)@ == old(s)@.push("0123456789"@[d as int]),
{
    proof {
        reveal_strlit("0123456789");
        reveal_strlit("0");
        reveal_strlit("1");
        reveal_strlit("2");
        reveal_strlit("3");
        reveal_strlit("4");
        reveal_strlit("5");
        reveal_strlit("6");
        reveal_strlit("7");
        reveal_strlit("8");
        reveal_strlit("9");
    }
    let lit = if d == 0 {
        "0"
    } else if d == 1 {
        "1"
    } else if d == 2 {
        "2"
    } else if d == 3 {
        "3"
    } else if d == 4 {
        "4"
    } else if d == 5 {
        "5"
    } else if d == 6 {
        "6"
    } else if d == 7 {
        "7"
    } else if d == 8 {
        "8"
    } else {
        "9"
    };
    s.append(lit);
    assert(final(s)@ =~= old(s)@.push("0123456789"@[d as int]));
}

/// Appends the decimal digits of `n` to `s`.
fn push_decimal(s: &mut String, n: usize)
    ensures
        final(s)@ == old(s)@ + decimal_of(n as nat),
    decreases n,
{
    if n >= 10 {
        push_decimal(s, n / 10);
    }
    push_digit(s, n % 10);
    assert(final(s)@ =~= old(s)@ + decimal_of(n as nat));
}

/// Index of the first newline byte of `b`, or its length.
pub open spec fn line_end(b: Seq<u8>) -> nat
    decreases b.len(),
{
    if b.len() == 0 {
        0
    } else if b[0] == 10u8 {
        0
    } else {
        1 + line_end(b.drop_first())
    }
}

/// The description of a file of `ct` holding `len` bytes.
pub open spec fn file_description(kind: Seq<char>, ct: Seq<char>, len: nat) -> Seq<char> {
    "("@ + kind + " "@ + ct + " file of "@ + decimal_of(len) + " bytes)"@
}

/// The summary of a text whose trimmed form has the UTF-8 bytes `t`: its
/// first line, cut to `width` bytes at a character boundary, the last three
/// given to `...` where the line is cut and `width` leaves room for them.
pub open spec fn line_summary(t: Seq<u8>, width: nat) -> Seq<char> {
    let line = t.subrange(0, line_end(t) as int);
    if line.len() <= width {
        decode_utf8(line)
    } else if width < 3 {
        decode_utf8(line.subrange(0, boundary_below(line, width) as int))
    } else {
        decode_utf8(line.subrange(0, boundary_below(line, (width - 3) as nat) as int)) + "..."@
    }
}

/// In valid UTF-8 an ASCII byte, or the end, always starts a character.
proof fn lemma_ascii_is_boundary(b: Seq<u8>, i: int)
    requires
        valid_utf8(b),
        0 <= i <= b.len(),
        i == b.len() || b[i] < 0x80,
    ensures
        is_char_boundary(b, i),
    decreases b.len(),
{
    if i > 0 {
        let l = length_of_first_scalar(b);
        assert(valid_first_scalar(b));
        assert(1 <= l <= 4 && l <= b.len());
        if i < l {
            assert(is_continuation_byte(b[i]));
        }
        let rest = pop_first_scalar(b);
        assert(rest.len() == b.len() - l);
        if i < b.len() {
            assert(rest[i - l] == b[i]);
        }
        lemma_ascii_is_boundary(rest, i - l);
    }
}

fn first_line_end(b: &[u8]) -> (r: usize)
    ensures
        r == line_end(b@),
        r <= b@.len(),
        r < b@.len() ==> b@[r as int] == 10u8,
{
    let mut i: usize = 0;
    assert(b@.subrange(0, b@.len() as int) =~= b@);
    while i < b.len() && b[i] != 10u8
        invariant
            i <= b@.len(),
            line_end(b@) == i + line_end(b@.subrange(i as int, b@.len() as int)),
        decreases b@.len() - i,
    {
        assert(b@.subrange(i as int, b@.len() as int).drop_first() =~= b@.subrange(i + 1, b@.len() as int));
        i += 1;
    }
    i
}

/// `s` cut to at most `k` bytes, at a character boundary.
fn cut_below<'a>(s: &'a str, k: usize) -> (r: &'a str)
    requires
        k <= s.spec_bytes().len(),
    ensures
        r.spec_bytes() == s.spec_bytes().subrange(0, boundary_below(s.spec_bytes(), k as nat) as int),
{
    broadcast use encode_utf8_valid_utf8, is_char_boundary_start_end_of_seq;

    let mut j = k;
    while j > 0 && !s.is_char_boundary(j)
        invariant
            j <= k,
            boundary_below(s.spec_bytes(), k as nat) == boundary_below(s.spec_bytes(), j as nat),
        decreases j,
    {
        j = j - 1;
    }
    let (front, _back) = s.split_at(j);
    front
}

/// The bytes of the trimmed text of an item's content.
pub open spec fn trimmed_bytes(content: Seq<u8>) -> Seq<u8> {
    encode_utf8(trim_of(decode_utf8(content)))
}

impl Item {
    /// A one-line description: for readable text, its first non-blank line
    /// cut to `width` bytes; otherwise the kind, type and size of the content.
    pub fn summary(&self, width: usize) -> (r: String)
        ensures
            is_text_type(self.content_type@) && valid_utf8(self.content@) && trim_of(
                decode_utf8(self.content@),
            ).len() > 0 ==> r@ == line_summary(trimmed_bytes(self.content@), width as nat),
            is_text_type(self.content_type@) && !(valid_utf8(self.content@) && trim_of(
                decode_utf8(self.content@),
            ).len() > 0) ==> r@ == file_description("text"@, self.content_type@, self.content@.len()),
            !is_text_type(self.content_type@) ==> r@ == file_description(
                "binary"@,
                self.content_type@,
                self.content@.len(),
            ),
    {
        broadcast use encode_utf8_valid_utf8, encode_utf8_decode_utf8;

        if is_text_content_type(self.content_type.as_str()) {
            if let Some(s) = utf8_str(self.content.as_slice()) {
                proof {
                    assert(decode_utf8(s.spec_bytes()) == s@);
                }
                let t = trim(s);
                if !t.is_empty() {
                    let b = t.as_bytes();
                    let end = first_line_end(b);
                    proof {
                        lemma_ascii_is_boundary(b@, end as int);
                    }
                    let (line, _rest) = t.split_at(end);
                    proof {
                        assert(line.spec_bytes() =~= b@.subrange(0, end as int));
                    }
                    if line.as_bytes().len() <= width {
                        return line.to_owned();
                    }
                    let cut = if width < 3 { width } else { width - 3 };
                    let front = cut_below(line, cut);
                    let mut out = front.to_owned();
                    if width >= 3 {
                        out.append("...");
                    }
                    return out;
                }
            }
            return describe("text", self.content_type.as_str(), self.content.len());
        }
        describe("binary", self.content_type.as_str(), self.content.len())
    }
}

fn describe(kind: &str, ct: &str, len: usize) -> (r: String)
    ensures
        r@ == file_description(kind@, ct@, len as nat),
{
    let mut s = "(".to_owned();
    s.append(kind);
    s.append(" ");
    s.append(ct);
    s.append(" file of ");
    push_decimal(&mut s, len);
    s.append(" bytes)");
    s
}

} // verus!
