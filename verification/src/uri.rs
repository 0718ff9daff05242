//! `file://` and `ssh://` URIs for directories, with their paths
//! percent-encoded byte by byte.

use vstd::prelude::*;
use vstd::utf8::{encode_scalar, encode_utf8, has_width_1_encoding, has_width_2_encoding,
    has_width_3_encoding, leading_byte_width_1, leading_byte_width_2, leading_byte_width_3,
    leading_byte_width_4, last_continuation_byte, second_last_continuation_byte,
    third_last_continuation_byte};
use crate::text::{chars_of, hex_digit, hex_digit_of, push_char, push_chars, digit_char};

verus! {

/// Characters that stand for themselves in an encoded path: ASCII letters and
/// digits, `-`, `_`, `.`, `~` and the separator `/`.
pub open spec fn is_uri_safe(c: char) -> bool {
    ||| ('A' <= c && c <= 'Z')
    ||| ('a' <= c && c <= 'z')
    ||| ('0' <= c && c <= '9')
    ||| c == '-'
    ||| c == '_'
    ||| c == '.'
    ||| c == '~'
    ||| c == '/'
}

fn uri_safe(c: char) -> (b: bool)
    ensures
        b == is_uri_safe(c),
{
    ('A' <= c && c <= 'Z') || ('a' <= c && c <= 'z') || ('0' <= c && c <= '9') || c == '-'
        || c == '_' || c == '.' || c == '~' || c == '/'
}

/// Each byte of `b` written as `%` and two upper-case hexadecimal digits.
pub open spec fn percent_bytes(b: Seq<u8>) -> Seq<char>
    decreases b.len(),
{
    if b.len() == 0 {
        seq![]
    } else {
        seq!['%', hex_digit((b[0] / 16) as nat), hex_digit((b[0] % 16) as nat)]
            + percent_bytes(b.drop_first())
    }
}

/// How one character of a path is written in a URI: itself where it is safe,
/// else its UTF-8 bytes, percent-encoded.
pub open spec fn encode_char(c: char) -> Seq<char> {
    if is_uri_safe(c) {
        seq![c]
    } else {
        percent_bytes(encode_scalar(c as u32))
    }
}

/// The percent-encoded form of the path `s`.
pub open spec fn uri_encoded(s: Seq<char>) -> Seq<char>
    decreases s.len(),
{
    if s.len() == 0 {
        seq![]
    } else {
        uri_encoded(s.drop_last()) + encode_char(s.last())
    }
}

/// The UTF-8 bytes of `c`, as `char::encode_utf8` writes them.
fn utf8_bytes(c: char) -> (b: Vec<u8>)
    ensures
        b@ == encode_scalar(c as u32),
{
    let v = c as u32;
    let mut b: Vec<u8> = Vec::new();
    if v <= 0x7F {
        b.push((v & 0x7F) as u8);
    } else if v <= 0x7FF {
        b.push(0xC0 | ((v >> 6) & 0x1F) as u8);
        b.push(0x80 | (v & 0x3F) as u8);
    } else if v <= 0xFFFF {
        b.push(0xE0 | ((v >> 12) & 0x0F) as u8);
        b.push(0x80 | ((v >> 6) & 0x3F) as u8);
        b.push(0x80 | (v & 0x3F) as u8);
    } else {
        b.push(0xF0 | ((v >> 18) & 0x7) as u8);
        b.push(0x80 | ((v >> 12) & 0x3F) as u8);
        b.push(0x80 | ((v >> 6) & 0x3F) as u8);
        b.push(0x80 | (v & 0x3F) as u8);
    }
    proof {
        broadcast use vstd::utf8::char_is_scalar;
        assert(vstd::utf8::is_scalar(v));
    }
    assert(b@ =~= encode_scalar(v));
    b
}

/// Appends `%XY` for the byte `x`.
fn push_percent_byte(out: &mut String, x: u8)
    ensures
        final(out)@ == old(out)@ + seq!['%', hex_digit((x / 16) as nat), hex_digit((x % 16) as nat)],
{
    push_char(out, '%');
    push_char(out, hex_digit_of(x / 16));
    push_char(out, hex_digit_of(x % 16));
    assert(final(out)@ =~= old(out)@ + seq!['%', hex_digit((x / 16) as nat), hex_digit((x % 16) as nat)]);
}

/// Appends the encoded form of the path `v` to `out`.
fn push_encoded(out: &mut String, v: &Vec<char>)
    ensures
        final(out)@ == old(out)@ + uri_encoded(v@),
{
    let ghost start = out@;
    assert(v@.take(0) =~= Seq::<char>::empty());
    for i in 0..v.len()
        invariant
            out@ == start + uri_encoded(v@.take(i as int)),
    {
        let c = v[i];
        assert(v@.take(i + 1).drop_last() =~= v@.take(i as int));
        assert(v@.take(i + 1).last() == c);
        let ghost before = out@;
        if uri_safe(c) {
            push_char(out, c);
        } else {
            let bytes = utf8_bytes(c);
            let ghost bs = bytes@;
            for k in 0..bytes.len()
                invariant
                    bs == bytes@,
                    out@ == before + percent_bytes(bs.take(k as int)),
            {
                let x = bytes[k];
                proof { lemma_percent_bytes_push(bs.take(k as int), x); }
                push_percent_byte(out, x);
                assert(bs.take(k + 1) =~= bs.take(k as int).push(x));
            }
            assert(bs.take(bytes.len() as int) =~= bs);
        }
        assert(out@ =~= start + uri_encoded(v@.take(i + 1)));
    }
    assert(v@.take(v.len() as int) =~= v@);
}

proof fn lemma_percent_bytes_push(b: Seq<u8>, x: u8)
    ensures
        percent_bytes(b.push(x)) == percent_bytes(b) + seq![
            '%',
            hex_digit((x / 16) as nat),
            hex_digit((x % 16) as nat),
        ],
    decreases b.len(),
{
    if b.len() == 0 {
        assert(b.push(x).drop_first() =~= Seq::<u8>::empty());
        assert(percent_bytes(b.push(x).drop_first()) =~= Seq::<char>::empty());
        assert(percent_bytes(b.push(x)) =~= seq!['%', hex_digit((x / 16) as nat), hex_digit((x % 16) as nat)]);
    } else {
        lemma_percent_bytes_push(b.drop_first(), x);
        assert(b.push(x).drop_first() =~= b.drop_first().push(x));
        assert(percent_bytes(b.push(x)) =~= percent_bytes(b) + seq!['%', hex_digit((x / 16) as nat), hex_digit((x % 16) as nat)]);
    }
}

/// Percent-encodes every character of `path` that is not a letter, a digit,
/// `-`, `_`, `.`, `~` or `/`, byte by byte in UTF-8.
pub fn encode_uri_path(path: &str) -> (s: String)
    ensures
        s@ == uri_encoded(path@),
{
    let mut out = String::new();
    push_encoded(&mut out, &chars_of(path));
    out
}

/// `file://` followed by the encoded local path.
pub open spec fn file_uri(path: Seq<char>) -> Seq<char> {
    seq!['f', 'i', 'l', 'e', ':', '/', '/'] + uri_encoded(path)
}

/// `ssh://`, the host, then the encoded remote path.
pub open spec fn ssh_uri(host: Seq<char>, path: Seq<char>) -> Seq<char> {
    seq!['s', 's', 'h', ':', '/', '/'] + host + uri_encoded(path)
}

/// The URI of a local directory.
pub fn local_uri(path: &str) -> (s: String)
    ensures
        s@ == file_uri(path@),
{
    let mut out = String::new();
    out.append("file://");
    proof { reveal_strlit("file://"); }
    push_encoded(&mut out, &chars_of(path));
    assert(out@ =~= file_uri(path@));
    out
}

/// The URI of a directory on a remote host.
pub fn remote_uri(host: &str, path: &str) -> (s: String)
    ensures
        s@ == ssh_uri(host@, path@),
{
    let mut out = String::new();
    out.append("ssh://");
    proof { reveal_strlit("ssh://"); }
    out.append(host);
    push_encoded(&mut out, &chars_of(path));
    assert(out@ =~= ssh_uri(host@, path@));
    out
}

/// The value of a hexadecimal digit, either case.
pub open spec fn hex_value(c: char) -> Option<nat> {
    if '0' <= c && c <= '9' {
        Some(((c as u32) - ('0' as u32)) as nat)
    } else if 'A' <= c && c <= 'F' {
        Some(((c as u32) - ('A' as u32) + 10) as nat)
    } else if 'a' <= c && c <= 'f' {
        Some(((c as u32) - ('a' as u32) + 10) as nat)
    } else {
        None
    }
}

/// The bytes that a percent-encoded ASCII text stands for: `%XY` is the byte
/// with hexadecimal value `XY`, any other ASCII character is its own byte.
/// `None` for a malformed escape or a character outside ASCII.
pub open spec fn percent_decode(t: Seq<char>) -> Option<Seq<u8>>
    decreases t.len(),
{
    if t.len() == 0 {
        Some(seq![])
    } else if t[0] == '%' {
        if t.len() >= 3 && hex_value(t[1]) is Some && hex_value(t[2]) is Some {
            match percent_decode(t.skip(3)) {
                Some(r) => Some(
                    seq![(hex_value(t[1]).unwrap() * 16 + hex_value(t[2]).unwrap()) as u8] + r,
                ),
                None => None,
            }
        } else {
            None
        }
    } else if (t[0] as u32) < 0x80 {
        match percent_decode(t.drop_first()) {
            Some(r) => Some(seq![(t[0] as u32) as u8] + r),
            None => None,
        }
    } else {
        None
    }
}

proof fn lemma_uri_encoded_front(s: Seq<char>)
    requires
        s.len() > 0,
    ensures
        uri_encoded(s) == encode_char(s[0]) + uri_encoded(s.drop_first()),
    decreases s.len(),
{
    if s.len() == 1 {
        assert(s.drop_last() =~= Seq::<char>::empty());
        assert(s.drop_first() =~= Seq::<char>::empty());
        assert(uri_encoded(s) =~= encode_char(s[0]) + uri_encoded(s.drop_first()));
    } else {
        let dl = s.drop_last();
        lemma_uri_encoded_front(dl);
        assert(dl.drop_first() =~= s.drop_first().drop_last());
        assert(s.drop_first().last() == s.last());
        assert(uri_encoded(s) =~= encode_char(s[0]) + uri_encoded(s.drop_first()));
    }
}

proof fn lemma_hex_roundtrip(v: nat)
    requires
        v < 16,
    ensures
        hex_value(hex_digit(v)) == Some(v),
{
}

proof fn lemma_decode_percent_prefix(b: Seq<u8>, rest: Seq<char>)
    ensures
        percent_decode(percent_bytes(b) + rest) == (match percent_decode(rest) {
            Some(r) => Some(b + r),
            None => None,
        }),
    decreases b.len(),
{
    if b.len() == 0 {
        assert(percent_bytes(b) + rest =~= rest);
        match percent_decode(rest) {
            Some(r) => { assert(b + r =~= r); },
            None => {},
        }
    } else {
        let x = b[0];
        let t = percent_bytes(b) + rest;
        let tail = percent_bytes(b.drop_first()) + rest;
        lemma_decode_percent_prefix(b.drop_first(), rest);
        lemma_hex_roundtrip((x / 16) as nat);
        lemma_hex_roundtrip((x % 16) as nat);
        assert(t =~= seq!['%', hex_digit((x / 16) as nat), hex_digit((x % 16) as nat)] + tail);
        assert(t.skip(3) =~= tail);
        assert(((x / 16) as nat * 16 + (x % 16) as nat) as u8 == x);
        match percent_decode(rest) {
            Some(r) => {
                assert(seq![x] + (b.drop_first() + r) =~= b + r);
            },
            None => {},
        }
    }
}

proof fn lemma_ascii_scalar(c: char)
    requires
        (c as u32) < 0x80,
    ensures
        encode_scalar(c as u32) == seq![(c as u32) as u8],
{
    let v = c as u32;
    assert(v <= 0x7F ==> (v & 0x7F) == v) by (bit_vector);
    assert(has_width_1_encoding(v));
    assert(leading_byte_width_1(v) == v as u8);
}

/// Decoding the percent escapes of an encoded path gives back the UTF-8 bytes
/// of the path: the encoding loses nothing.
pub proof fn law_uri_encoding_decodes_to_utf8(s: Seq<char>)
    ensures
        percent_decode(uri_encoded(s)) == Some(encode_utf8(s)),
    decreases s.len(),
{
    if s.len() == 0 {
        assert(uri_encoded(s) =~= Seq::<char>::empty());
        assert(encode_utf8(s) =~= Seq::<u8>::empty());
    } else {
        let c = s[0];
        let rest = uri_encoded(s.drop_first());
        law_uri_encoding_decodes_to_utf8(s.drop_first());
        lemma_uri_encoded_front(s);
        assert(encode_utf8(s) == encode_scalar(c as u32) + encode_utf8(s.drop_first()));
        if is_uri_safe(c) {
            lemma_ascii_scalar(c);
            let t = seq![c] + rest;
            assert(t.drop_first() =~= rest);
            assert(t[0] == c);
            assert(seq![(c as u32) as u8] + encode_utf8(s.drop_first())
                =~= encode_scalar(c as u32) + encode_utf8(s.drop_first()));
        } else {
            lemma_decode_percent_prefix(encode_scalar(c as u32), rest);
        }
    }
}

/// Whether `c` is an upper-case hexadecimal digit.
pub open spec fn is_upper_hex(c: char) -> bool {
    ('0' <= c && c <= '9') || ('A' <= c && c <= 'F')
}

/// Whether position `i` of `t` holds a safe character, or a `%` followed by
/// two upper-case hexadecimal digits.
pub open spec fn well_encoded_at(t: Seq<char>, i: int) -> bool {
    is_uri_safe(t[i]) || (t[i] == '%' && i + 2 < t.len() && is_upper_hex(t[i + 1]) && is_upper_hex(t[i + 2]))
}

/// Whether every position of `t` is [`well_encoded_at`].
pub open spec fn well_encoded(t: Seq<char>) -> bool {
    forall|i: int| 0 <= i < t.len() ==> #[trigger] well_encoded_at(t, i)
}

proof fn lemma_well_encoded_concat(a: Seq<char>, b: Seq<char>)
    requires
        well_encoded(a),
        well_encoded(b),
    ensures
        well_encoded(a + b),
{
    let t = a + b;
    assert forall|i: int| 0 <= i < t.len() implies #[trigger] well_encoded_at(t, i) by {
        if i < a.len() {
            assert(well_encoded_at(a, i));
            if !is_uri_safe(a[i]) {
                assert(t[i + 1] == a[i + 1]);
                assert(t[i + 2] == a[i + 2]);
            }
        } else {
            let k = i - a.len();
            assert(well_encoded_at(b, k));
            assert(t[i] == b[k]);
            if !is_uri_safe(b[k]) {
                assert(t[i + 1] == b[k + 1]);
                assert(t[i + 2] == b[k + 2]);
            }
        }
    }
}

proof fn lemma_percent_bytes_well_encoded(b: Seq<u8>)
    ensures
        well_encoded(percent_bytes(b)),
    decreases b.len(),
{
    if b.len() == 0 {
        assert(percent_bytes(b) =~= Seq::<char>::empty());
    } else {
        let x = b[0];
        let head = seq!['%', hex_digit((x / 16) as nat), hex_digit((x % 16) as nat)];
        assert(well_encoded(head)) by {
            assert forall|i: int| 0 <= i < head.len() implies #[trigger] well_encoded_at(head, i) by {
                if i == 0 {
                    assert(is_upper_hex(head[1]));
                    assert(is_upper_hex(head[2]));
                }
            }
        }
        lemma_percent_bytes_well_encoded(b.drop_first());
        lemma_well_encoded_concat(head, percent_bytes(b.drop_first()));
    }
}

/// An encoded path holds only letters, digits, `-`, `_`, `.`, `~`, `/` and
/// `%`, and every `%` is followed by two upper-case hexadecimal digits.
pub proof fn law_uri_encoding_alphabet(s: Seq<char>)
    ensures
        well_encoded(uri_encoded(s)),
    decreases s.len(),
{
    if s.len() == 0 {
        assert(uri_encoded(s) =~= Seq::<char>::empty());
    } else {
        law_uri_encoding_alphabet(s.drop_last());
        let c = s.last();
        if is_uri_safe(c) {
            assert(well_encoded_at(seq![c], 0));
        } else {
            lemma_percent_bytes_well_encoded(encode_scalar(c as u32));
        }
        lemma_well_encoded_concat(uri_encoded(s.drop_last()), encode_char(c));
    }
}

} // verus!
