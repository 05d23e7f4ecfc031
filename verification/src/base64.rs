//! Base64 encoding of byte data, used to inline saved images as data URLs.

use vstd::prelude::*;

use crate::chars::push_char;

verus! {

/// The 64 digits of the encoding.
pub open spec fn b64_alphabet() -> Seq<char> {
    "ABCDEFGHIJKLMNOPQRSTUVWXYZabcdefghijklmnopqrstuvwxyz0123456789+/"@
}

/// The four output characters of one input group of `n` bytes (1 to 3);
/// missing bytes are zero and their positions are padded with `=`.
pub open spec fn b64_group_s(b1: u8, b2: u8, b3: u8, n: int) -> Seq<char> {
    seq![
        b64_alphabet()[(b1 >> 2u8) as int],
        b64_alphabet()[(((b1 & 0x03u8) << 4u8) | (b2 >> 4u8)) as int],
        if n >= 2 {
            b64_alphabet()[(((b2 & 0x0fu8) << 2u8) | (b3 >> 6u8)) as int]
        } else {
            '='
        },
        if n >= 3 {
            b64_alphabet()[(b3 & 0x3fu8) as int]
        } else {
            '='
        },
    ]
}

/// The base64 encoding of a byte sequence.
pub open spec fn b64_s(data: Seq<u8>) -> Seq<char>
    decreases data.len(),
{
    if data.len() == 0 {
        Seq::<char>::empty()
    } else if data.len() == 1 {
        b64_group_s(data[0], 0, 0, 1)
    } else if data.len() == 2 {
        b64_group_s(data[0], data[1], 0, 2)
    } else {
        b64_group_s(data[0], data[1], data[2], 3) + b64_s(
            data.subrange(3, data.len() as int),
        )
    }
}

fn b64_digit(idx: u8) -> (c: char)
    requires
        idx < 64,
    ensures
        c == b64_alphabet()[idx as int],
{
    let table = "ABCDEFGHIJKLMNOPQRSTUVWXYZabcdefghijklmnopqrstuvwxyz0123456789+/";
    proof {
        reveal_strlit("ABCDEFGHIJKLMNOPQRSTUVWXYZabcdefghijklmnopqrstuvwxyz0123456789+/");
    }
    table.get_char(idx as usize)
}

/// Encodes bytes as base64 text.
pub fn base64_encode(data: &[u8]) -> (r: String)
    ensures
        r@ == b64_s(data@),
{
    let n = data.len();
    let mut r = String::new();
    let mut i: usize = 0;
    proof {
        assert(data@.subrange(0, n as int) =~= data@);
        assert(r@ + b64_s(data@) =~= b64_s(data@));
    }
    while i < n
        invariant
            i <= n,
            n == data@.len(),
            b64_s(data@) == r@ + b64_s(data@.subrange(i as int, n as int)),
        decreases n - i,
    {
        let ghost rest = data@.subrange(i as int, n as int);
        let b1 = data[i];
        let b2 = if n - i > 1 {
            data[i + 1]
        } else {
            0
        };
        let b3 = if n - i > 2 {
            data[i + 2]
        } else {
            0
        };
        proof {
            assert(b1 >> 2u8 < 64) by (bit_vector);
            assert(((b1 & 0x03u8) << 4u8) | (b2 >> 4u8) < 64) by (bit_vector);
            assert(((b2 & 0x0fu8) << 2u8) | (b3 >> 6u8) < 64) by (bit_vector);
            assert(b3 & 0x3fu8 < 64) by (bit_vector);
        }
        let ghost r0 = r@;
        push_char(&mut r, b64_digit(b1 >> 2));
        push_char(&mut r, b64_digit(((b1 & 0x03) << 4) | (b2 >> 4)));
        if n - i > 1 {
            push_char(&mut r, b64_digit(((b2 & 0x0f) << 2) | (b3 >> 6)));
        } else {
            push_char(&mut r, '=');
        }
        if n - i > 2 {
            push_char(&mut r, b64_digit(b3 & 0x3f));
        } else {
            push_char(&mut r, '=');
        }
        proof {
            if rest.len() == 1 {
                assert(r@ =~= r0 + b64_group_s(rest[0], 0, 0, 1));
            } else if rest.len() == 2 {
                assert(rest[1] == b2);
                assert(r@ =~= r0 + b64_group_s(rest[0], rest[1], 0, 2));
            } else {
                assert(rest[1] == b2);
                assert(rest[2] == b3);
                assert(r@ =~= r0 + b64_group_s(rest[0], rest[1], rest[2], 3));
                assert(rest.subrange(3, rest.len() as int) =~= data@.subrange(
                    i + 3,
                    n as int,
                ));
            }
        }
        if n - i > 3 {
            i = i + 3;
        } else {
            i = n;
            proof {
                assert(data@.subrange(n as int, n as int).len() == 0);
            }
        }
    }
    proof {
        assert(data@.subrange(i as int, n as int).len() == 0);
        assert(b64_s(data@.subrange(i as int, n as int)) =~= Seq::<char>::empty());
        assert(r@ + Seq::<char>::empty() =~= r@);
    }
    r
}

} // verus!

verus! {

/// An ASCII letter lowered; everything else unchanged.
pub open spec fn lower_char(c: char) -> char {
    match c {
        'A' => 'a',
        'B' => 'b',
        'C' => 'c',
        'D' => 'd',
        'E' => 'e',
        'F' => 'f',
        'G' => 'g',
        'H' => 'h',
        'I' => 'i',
        'J' => 'j',
        'K' => 'k',
        'L' => 'l',
        'M' => 'm',
        'N' => 'n',
        'O' => 'o',
        'P' => 'p',
        'Q' => 'q',
        'R' => 'r',
        'S' => 's',
        'T' => 't',
        'U' => 'u',
        'V' => 'v',
        'W' => 'w',
        'X' => 'x',
        'Y' => 'y',
        'Z' => 'z',
        _ => c,
    }
}

/// The text with ASCII letters lowered.
pub open spec fn ascii_lower_s(s: Seq<char>) -> Seq<char>
    decreases s.len(),
{
    if s.len() == 0 {
        Seq::<char>::empty()
    } else {
        ascii_lower_s(s.drop_last()).push(lower_char(s.last()))
    }
}

/// The media type an image extension selects; unknown extensions fall
/// back to PNG.
pub open spec fn mime_for_s(ext: Seq<char>) -> Seq<char> {
    let e = ascii_lower_s(ext);
    if e == "png"@ {
        "image/png"@
    } else if e == "jpg"@ || e == "jpeg"@ {
        "image/jpeg"@
    } else if e == "gif"@ {
        "image/gif"@
    } else if e == "webp"@ {
        "image/webp"@
    } else if e == "svg"@ {
        "image/svg+xml"@
    } else {
        "image/png"@
    }
}

/// The inline form of a saved image: a data URL carrying the media type
/// and the base64 payload.
pub open spec fn image_data_url_s(data: Seq<u8>, ext: Seq<char>) -> Seq<char> {
    "data:"@ + mime_for_s(ext) + ";base64,"@ + b64_s(data)
}

fn ascii_lower(s: &str) -> (r: String)
    ensures
        r@ == ascii_lower_s(s@),
{
    let v = crate::chars::chars_of(s);
    let mut out: Vec<char> = Vec::new();
    let mut i: usize = 0;
    proof {
        assert(v@.subrange(0, 0).len() == 0);
    }
    while i < v.len()
        invariant
            i <= v@.len(),
            out@ == ascii_lower_s(v@.subrange(0, i as int)),
        decreases v@.len() - i,
    {
        let c = v[i];
        proof {
            let pre2 = v@.subrange(0, i + 1);
            assert(pre2.drop_last() =~= v@.subrange(0, i as int));
            assert(pre2.last() == c);
        }
        let lc = match c {
            'A' => 'a',
            'B' => 'b',
            'C' => 'c',
            'D' => 'd',
            'E' => 'e',
            'F' => 'f',
            'G' => 'g',
            'H' => 'h',
            'I' => 'i',
            'J' => 'j',
            'K' => 'k',
            'L' => 'l',
            'M' => 'm',
            'N' => 'n',
            'O' => 'o',
            'P' => 'p',
            'Q' => 'q',
            'R' => 'r',
            'S' => 's',
            'T' => 't',
            'U' => 'u',
            'V' => 'v',
            'W' => 'w',
            'X' => 'x',
            'Y' => 'y',
            'Z' => 'z',
            _ => c,
        };
        out.push(lc);
        i = i + 1;
    }
    proof {
        assert(v@.subrange(0, v@.len() as int) =~= v@);
    }
    crate::chars::string_of(&out)
}

/// The media type an image extension selects, compared without case.
pub fn mime_type_for(extension: &str) -> (r: &'static str)
    ensures
        r@ == mime_for_s(extension@),
{
    let e = ascii_lower(extension);
    if crate::chars::str_eq(e.as_str(), "png") {
        "image/png"
    } else if crate::chars::str_eq(e.as_str(), "jpg") || crate::chars::str_eq(
        e.as_str(),
        "jpeg",
    ) {
        "image/jpeg"
    } else if crate::chars::str_eq(e.as_str(), "gif") {
        "image/gif"
    } else if crate::chars::str_eq(e.as_str(), "webp") {
        "image/webp"
    } else if crate::chars::str_eq(e.as_str(), "svg") {
        "image/svg+xml"
    } else {
        "image/png"
    }
}

/// Encodes image bytes as an inline data URL.
pub fn image_data_url(data: &[u8], extension: &str) -> (r: String)
    ensures
        r@ == image_data_url_s(data@, extension@),
{
    let mime = mime_type_for(extension);
    let payload = base64_encode(data);
    let a = crate::paths::str_concat("data:", mime);
    let b = crate::paths::str_concat(a.as_str(), ";base64,");
    crate::paths::str_concat(b.as_str(), payload.as_str())
}

} // verus!
