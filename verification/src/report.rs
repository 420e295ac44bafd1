//! The chart sections of the HTML report: each chart embedded as Base64 image data.
use vstd::prelude::*;

verus! {

/// The character of the standard Base64 alphabet for the 6-bit value `v`:
/// `A`-`Z`, `a`-`z`, `0`-`9`, `+`, `/`.
pub open spec fn base64_char(v: int) -> char {
    if v < 26 {
        (65 + v) as char
    } else if v < 52 {
        (97 + v - 26) as char
    } else if v < 62 {
        (48 + v - 52) as char
    } else if v == 62 {
        '+'
    } else {
        '/'
    }
}

/// The standard Base64 encoding (RFC 4648) of `data`: each group of 3 bytes becomes 4
/// characters of 6 bits each, most significant first; a final group of 1 or 2 bytes is
/// padded with zero bits and completed with `=` to 4 characters.
pub open spec fn base64_standard(data: Seq<u8>) -> Seq<char>
    decreases data.len(),
{
    let b0 = data[0] as int;
    let b1 = data[1] as int;
    let b2 = data[2] as int;
    if data.len() == 0 {
        seq![]
    } else if data.len() == 1 {
        seq![base64_char(b0 / 4), base64_char((b0 % 4) * 16), '=', '=']
    } else if data.len() == 2 {
        seq![base64_char(b0 / 4), base64_char((b0 % 4) * 16 + b1 / 16), base64_char((b1 % 16) * 4), '=']
    } else {
        seq![
            base64_char(b0 / 4),
            base64_char((b0 % 4) * 16 + b1 / 16),
            base64_char((b1 % 16) * 4 + b2 / 64),
            base64_char(b2 % 64),
        ] + base64_standard(data.subrange(3, data.len() as int))
    }
}

/// The 6-bit value of a character of the standard Base64 alphabet.
pub open spec fn base64_value(ch: char) -> int {
    let n = ch as int;
    if 65 <= n <= 90 {
        n - 65
    } else if 97 <= n <= 122 {
        n - 97 + 26
    } else if 48 <= n <= 57 {
        n - 48 + 52
    } else if ch == '+' {
        62
    } else {
        63
    }
}

/// Standard Base64 decoding of padded text: each group of 4 characters gives 3 bytes,
/// a group ending in `==` gives 1 byte and one ending in `=` gives 2.
pub open spec fn base64_decode(text: Seq<char>) -> Seq<u8>
    decreases text.len(),
{
    if text.len() < 4 {
        seq![]
    } else {
        let v0 = base64_value(text[0]);
        let v1 = base64_value(text[1]);
        let v2 = base64_value(text[2]);
        let v3 = base64_value(text[3]);
        let b0 = (v0 * 4 + v1 / 16) as u8;
        let b1 = ((v1 % 16) * 16 + v2 / 4) as u8;
        let b2 = ((v2 % 4) * 64 + v3) as u8;
        if text[2] == '=' {
            seq![b0]
        } else if text[3] == '=' {
            seq![b0, b1]
        } else {
            seq![b0, b1, b2] + base64_decode(text.subrange(4, text.len() as int))
        }
    }
}

proof fn lemma_base64_char_value(v: int)
    requires
        0 <= v < 64,
    ensures
        base64_value(base64_char(v)) == v,
        base64_char(v) != '=',
{
}

proof fn lemma_group_bytes(b0: u8, b1: u8, b2: u8)
    ensures
        ((b0 / 4) * 4 + ((b0 % 4) * 16 + b1 / 16) / 16) as u8 == b0,
        ((((b0 % 4) * 16 + b1 / 16) % 16) * 16 + ((b1 % 16) * 4 + b2 / 64) / 4) as u8 == b1,
        ((((b1 % 16) * 4 + b2 / 64) % 4) * 64 + b2 % 64) as u8 == b2,
        ((((b0 % 4) * 16 + b1 / 16) % 16) * 16 + ((b1 % 16) * 4) / 4) as u8 == b1,
        ((b0 / 4) * 4 + ((b0 % 4) * 16) / 16) as u8 == b0,
        0 <= (b0 % 4) * 16 + b1 / 16 < 64,
        0 <= (b1 % 16) * 4 + b2 / 64 < 64,
{
    assert(((b0 / 4) * 4 + ((b0 % 4) * 16 + b1 / 16) / 16) as u8 == b0) by (bit_vector);
    assert(((((b0 % 4) * 16 + b1 / 16) % 16) * 16 + ((b1 % 16) * 4 + b2 / 64) / 4) as u8 == b1)
        by (bit_vector);
    assert(((((b1 % 16) * 4 + b2 / 64) % 4) * 64 + b2 % 64) as u8 == b2) by (bit_vector);
    assert(((((b0 % 4) * 16 + b1 / 16) % 16) * 16 + ((b1 % 16) * 4) / 4) as u8 == b1)
        by (bit_vector);
    assert(((b0 / 4) * 4 + ((b0 % 4) * 16) / 16) as u8 == b0) by (bit_vector);
    assert(0 <= (b0 % 4) * 16 + b1 / 16 < 64) by (bit_vector);
    assert(0 <= (b1 % 16) * 4 + b2 / 64 < 64) by (bit_vector);
}

/// Standard Base64 text decodes back to the bytes it encodes: a chart embedded with
/// `chart_section` carries its image bytes without loss.
pub proof fn lemma_base64_round_trip(data: Seq<u8>)
    ensures
        base64_decode(base64_standard(data)) == data,
    decreases data.len(),
{
    if data.len() == 0 {
        assert(data =~= seq![]);
    } else {
        let b0 = data[0];
        let b1 = data[1];
        let b2 = data[2];
        lemma_group_bytes(b0, b1, b2);
        lemma_base64_char_value((b0 / 4) as int);
        lemma_base64_char_value((b0 % 4) * 16 + b1 / 16);
        lemma_base64_char_value((b0 % 4) * 16);
        lemma_base64_char_value((b1 % 16) * 4 + b2 / 64);
        lemma_base64_char_value((b1 % 16) * 4);
        lemma_base64_char_value((b2 % 64) as int);
        let text = base64_standard(data);
        if data.len() == 1 {
            assert(base64_decode(text) =~= data);
        } else if data.len() == 2 {
            assert(base64_decode(text) =~= data);
        } else {
            let rest = data.subrange(3, data.len() as int);
            lemma_base64_round_trip(rest);
            assert(text.subrange(4, text.len() as int) =~= base64_standard(rest));
            assert(base64_decode(text) =~= data);
        }
    }
}

/// Different bytes never give the same standard Base64 text.
pub proof fn lemma_base64_injective(a: Seq<u8>, b: Seq<u8>)
    requires
        base64_standard(a) == base64_standard(b),
    ensures
        a == b,
{
    lemma_base64_round_trip(a);
    lemma_base64_round_trip(b);
}

/// Encodes `data` with `base64::engine::general_purpose::STANDARD`.
/// Trusted: the result is the standard padded Base64 text of `data`. The crate panics
/// when the encoded length overflows `usize`, which `requires` leaves out.
#[verifier::external_body]
fn encode_base64(data: &[u8]) -> (s: String)
    requires
        4 * ((data@.len() + 2) / 3) <= usize::MAX,
    ensures
        s@ == base64_standard(data@),
{
    base64::Engine::encode(&base64::engine::general_purpose::STANDARD, data)
}

/// The HTML of one chart: a `chart` division holding the title as a heading and the
/// image as inline bitmap data.
pub open spec fn chart_html_spec(title: Seq<char>, b64: Seq<char>) -> Seq<char> {
    "<div class=\"chart\">\n<h3>"@ + title + "</h3>\n<img src=\"data:image/bmp;base64,"@ + b64
        + "\">\n</div>\n"@
}

/// The HTML of one chart whose image is already Base64-encoded.
pub fn chart_html(title: &str, b64: &str) -> (html: String)
    ensures
        html@ == chart_html_spec(title@, b64@),
{
    let mut html = String::from_str("<div class=\"chart\">\n<h3>");
    html.append(title);
    html.append("</h3>\n<img src=\"data:image/bmp;base64,");
    html.append(b64);
    html.append("\">\n</div>\n");
    html
}

/// The HTML of one chart, its image bytes `png` encoded as standard Base64.
pub fn chart_section(title: &str, png: &[u8]) -> (html: String)
    requires
        4 * ((png@.len() + 2) / 3) <= usize::MAX,
    ensures
        html@ == chart_html_spec(title@, base64_standard(png@)),
{
    let b64 = encode_base64(png);
    chart_html(title, b64.as_str())
}

} // verus!
