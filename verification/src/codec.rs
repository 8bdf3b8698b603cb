//! Pictures in and out of their file formats.

use vstd::prelude::*;

use crate::canvas::{can_hold, raw_bytes, raw_pixels, Picture, RgbaImage};
use crate::text::joined;

verus! {

/// The error of the `image` crate.
#[verifier::external_type_specification]
#[verifier::external_body]
pub struct ExImageError(image::ImageError);

/// The sides and bytes that a picture file holds, or why it cannot be read.
///
/// `image::load_from_memory` guesses the format and decodes it, and
/// `DynamicImage::to_rgba8` turns the outcome into RGBA bytes. Nothing is
/// claimed of the outcome: it also depends on the decoders that are registered
/// in the process and on the instructions of the machine.
#[verifier::external_body]
fn decode_raw(bytes: &[u8]) -> (r: Result<(u32, u32, Vec<u8>), image::ImageError>) {
    let img = image::load_from_memory(bytes)?.to_rgba8();
    Ok((img.width(), img.height(), img.into_raw()))
}

/// What an error of the `image` crate says of itself, by its `Display`. Nothing
/// is claimed of the words.
#[verifier::external_body]
fn error_text(e: &image::ImageError) -> (r: String) {
    e.to_string()
}

/// Why a picture cannot be read.
pub enum DecodeError {
    /// The decoder's own words.
    Unreadable(String),
    /// The decoder's bytes do not fill a picture that can be held.
    WrongSize,
}

impl DecodeError {
    /// What to tell the user.
    pub fn message(&self) -> (r: String)
        ensures
            r@ == (match *self {
                DecodeError::Unreadable(s) => s@,
                DecodeError::WrongSize => "the picture is incomplete"@,
            }),
    {
        match self {
            DecodeError::Unreadable(s) => s.clone(),
            DecodeError::WrongSize => "the picture is incomplete".to_owned(),
        }
    }
}

/// This is what becomes of what a decoder gave: a picture where its bytes fill
/// one, and else the error.
pub open spec fn makes(
    parts: Result<(u32, u32, Vec<u8>), String>,
    r: Result<RgbaImage, DecodeError>,
) -> bool {
    match parts {
        Ok((w, h, raw)) => {
            &&& r is Ok <==> raw@.len() == 4 * (w * h) && can_hold(w as int, h as int)
            &&& r matches Ok(img) ==> img@.wf() && img@ == (Picture {
                width: w as nat,
                height: h as nat,
                px: raw_pixels(raw@),
            })
            &&& r matches Err(e) ==> e is WrongSize
        },
        Err(s) => r matches Err(DecodeError::Unreadable(t)) && t@ == s@,
    }
}

/// Makes a picture of what a decoder gave.
pub fn picture_from_parts(parts: Result<(u32, u32, Vec<u8>), String>) -> (r: Result<
    RgbaImage,
    DecodeError,
>)
    ensures
        makes(parts, r),
{
    match parts {
        Ok((w, h, raw)) => match RgbaImage::from_raw(w, h, &raw) {
            Some(img) => Ok(img),
            None => Err(DecodeError::WrongSize),
        },
        Err(s) => Err(DecodeError::Unreadable(s)),
    }
}

/// The decoder, given these bytes, may give these parts; an error comes in its
/// own words.
pub closed spec fn decoder_says(
    bytes: &[u8],
    parts: Result<(u32, u32, Vec<u8>), String>,
) -> bool {
    exists|raw: Result<(u32, u32, Vec<u8>), image::ImageError>|
        {
            &&& #[trigger] call_ensures(decode_raw, (bytes,), raw)
            &&& match raw {
                Ok(p) => parts == Ok::<(u32, u32, Vec<u8>), String>(p),
                Err(e) => parts matches Err(s) && call_ensures(error_text, (&e,), s),
            }
        }
}

/// Hands the bytes to a decoder, and an error of it to what puts it in words.
fn ask<
    D: Fn(&[u8]) -> Result<(u32, u32, Vec<u8>), image::ImageError>,
    T: Fn(&image::ImageError) -> String,
>(decode: D, text: T, bytes: &[u8]) -> (r: Result<(u32, u32, Vec<u8>), String>)
    requires
        call_requires(decode, (bytes,)),
        forall|e: &image::ImageError| call_requires(text, (e,)),
    ensures
        exists|raw: Result<(u32, u32, Vec<u8>), image::ImageError>|
            {
                &&& #[trigger] call_ensures(decode, (bytes,), raw)
                &&& match raw {
                    Ok(p) => r == Ok::<(u32, u32, Vec<u8>), String>(p),
                    Err(e) => r matches Err(s) && call_ensures(text, (&e,), s),
                }
            },
{
    let raw = decode(bytes);
    match raw {
        Ok(p) => Ok(p),
        Err(e) => Err(text(&e)),
    }
}

/// What the decoder gives for the bytes of a file: sides and pixel bytes, or why
/// the file cannot be read.
pub fn decode_parts(bytes: &[u8]) -> (r: Result<(u32, u32, Vec<u8>), String>)
    ensures
        decoder_says(bytes, r),
{
    ask(decode_raw, error_text, bytes)
}

/// Reads a picture file: the bytes go to the decoder, and what it gives becomes
/// a picture or the error.
pub fn decode_image(bytes: &[u8]) -> (r: Result<RgbaImage, DecodeError>)
    ensures
        exists|parts: Result<(u32, u32, Vec<u8>), String>| #[trigger]
            decoder_says(bytes, parts) && makes(parts, r),
        r matches Ok(img) ==> img@.wf(),
{
    let parts = decode_parts(bytes);
    let ghost said = parts;
    let r = picture_from_parts(parts);
    assert(decoder_says(bytes, said) && makes(said, r));
    r
}

/// The first bytes of every PNG file.
pub open spec fn png_signature() -> Seq<u8> {
    seq![137, 80, 78, 71, 13, 10, 26, 10]
}

/// A number in four bytes, the greatest first.
pub open spec fn be_bytes(n: u32) -> Seq<u8> {
    seq![
        (n / 0x100_0000) as u8,
        ((n / 0x1_0000) % 0x100) as u8,
        ((n / 0x100) % 0x100) as u8,
        (n % 0x100) as u8,
    ]
}

/// The bytes are a PNG file of a picture of the given size: they start with the
/// signature, and the header names the sides.
pub open spec fn is_png_of(bytes: Seq<u8>, w: u32, h: u32) -> bool {
    &&& bytes.len() >= 24
    &&& bytes.subrange(0, 8) == png_signature()
    &&& bytes.subrange(16, 20) == be_bytes(w)
    &&& bytes.subrange(20, 24) == be_bytes(h)
}

/// The bytes that a picture makes in the PNG format.
pub uninterp spec fn png_file(w: u32, h: u32, raw: Seq<u8>) -> Seq<u8>;

/// What `ImageBuffer::write_to` writes into memory for the PNG format, whether
/// or not it ends in an error. The bytes depend on the picture alone. A picture
/// that has pixels makes a file with the signature and a header that names the
/// sides; of the compressed pixels nothing more is said.
#[verifier::external_body]
fn png_bytes(w: u32, h: u32, raw: Vec<u8>) -> (r: Vec<u8>)
    requires
        raw@.len() == 4 * (w * h),
        can_hold(w as int, h as int),
    ensures
        r@ == png_file(w, h, raw@),
        w > 0 && h > 0 ==> is_png_of(r@, w, h),
{
    let img = image::RgbaImage::from_raw(w, h, raw).unwrap();
    let mut buf = std::io::Cursor::new(Vec::new());
    let _ = img.write_to(&mut buf, image::ImageFormat::Png);
    buf.into_inner()
}

/// The byte at a place, and zero behind the end.
pub open spec fn byte_at(bytes: Seq<u8>, k: int) -> int {
    if k < bytes.len() {
        bytes[k] as int
    } else {
        0
    }
}

/// The number that the six bits from bit `6 * i` on stand for, the greatest
/// bit first.
pub open spec fn six_bits(bytes: Seq<u8>, i: int) -> int {
    let k = 3 * i / 4;
    if i % 4 == 0 {
        byte_at(bytes, k) / 4
    } else if i % 4 == 1 {
        byte_at(bytes, k) % 4 * 16 + byte_at(bytes, k + 1) / 16
    } else if i % 4 == 2 {
        byte_at(bytes, k) % 16 * 4 + byte_at(bytes, k + 1) / 64
    } else {
        byte_at(bytes, k) % 64
    }
}

/// The number of base64 characters for so many bytes: four for every three, or
/// part of three.
pub open spec fn base64_len(len: int) -> int {
    4 * ((len + 2) / 3)
}

/// The standard base64 text of some bytes: a character for every six bits, and
/// `=` where no bit is left.
pub open spec fn base64_text(bytes: Seq<u8>) -> Seq<char> {
    Seq::new(
        base64_len(bytes.len() as int) as nat,
        |i: int|
            if 3 * i < 4 * bytes.len() {
                "ABCDEFGHIJKLMNOPQRSTUVWXYZabcdefghijklmnopqrstuvwxyz0123456789+/"@[six_bits(
                    bytes,
                    i,
                )]
            } else {
                '='
            },
    )
}

/// `Engine::encode` of the `base64` crate, with its `STANDARD` engine: the
/// standard alphabet, with padding.
#[verifier::external_body]
fn base64_encode(bytes: &Vec<u8>) -> (r: String)
    requires
        base64_len(bytes@.len() as int) <= isize::MAX,
    ensures
        r@ == base64_text(bytes@),
{
    base64::Engine::encode(&base64::engine::general_purpose::STANDARD, bytes)
}

/// The text of a PNG file that stands in a page itself.
pub open spec fn data_uri(png: Seq<u8>) -> Seq<char> {
    "data:image/png;base64,"@ + base64_text(png)
}

/// Writes the bytes of a PNG file as text that can stand in a page itself;
/// `None` when the text would not fit in memory.
pub fn png_uri(png: &Vec<u8>) -> (r: Option<String>)
    ensures
        r is Some <==> base64_len(png@.len() as int) <= isize::MAX,
        r matches Some(s) ==> s@ == data_uri(png@),
{
    let n: usize = png.len();
    let limit: usize = isize::MAX as usize / 4;
    let groups: usize = n / 3 + if n % 3 == 0 {
        0
    } else {
        1
    };
    assert(groups == (n + 2) / 3);
    if groups > limit {
        None
    } else {
        let text = base64_encode(png);
        Some(joined("data:image/png;base64,", text.as_str()))
    }
}

/// The PNG file of a picture.
pub open spec fn png_of(pic: Picture) -> Seq<u8> {
    png_file(pic.width as u32, pic.height as u32, raw_bytes(pic.px))
}

/// A picture as text that can stand in a page itself; `None` when the text
/// would not fit in memory.
pub fn png_data_uri(img: &RgbaImage) -> (r: Option<String>)
    requires
        img@.wf(),
    ensures
        r is Some <==> base64_len(png_of(img@).len() as int) <= isize::MAX,
        r matches Some(s) ==> s@ == data_uri(png_of(img@)),
        r is Some && img@.width > 0 && img@.height > 0 ==> is_png_of(
            png_of(img@),
            img@.width as u32,
            img@.height as u32,
        ),
{
    let raw = img.to_raw();
    let png = png_bytes(img.width(), img.height(), raw);
    png_uri(&png)
}

/// What a character of a Base64 text stands for: the capital letters for 0 to 25, the small
/// ones for 26 to 51, the digits for 52 to 61, `+` for 62 and `/` for 63.
pub open spec fn sextet(c: char) -> int {
    let n = c as u32 as int;
    if 65 <= n <= 90 {
        n - 65
    } else if 97 <= n <= 122 {
        n - 71
    } else if 48 <= n <= 57 {
        n + 4
    } else if c == '+' {
        62
    } else if c == '/' {
        63
    } else {
        -1
    }
}

proof fn lemma_alphabet(v: int)
    requires
        0 <= v < 64,
    ensures
        sextet("ABCDEFGHIJKLMNOPQRSTUVWXYZabcdefghijklmnopqrstuvwxyz0123456789+/"@[v]) == v,
{
    reveal_strlit("ABCDEFGHIJKLMNOPQRSTUVWXYZabcdefghijklmnopqrstuvwxyz0123456789+/");
    let a = "ABCDEFGHIJKLMNOPQRSTUVWXYZabcdefghijklmnopqrstuvwxyz0123456789+/"@;
    assert(a[0] == 'A');
    assert(a[1] == 'B');
    assert(a[2] == 'C');
    assert(a[3] == 'D');
    assert(a[4] == 'E');
    assert(a[5] == 'F');
    assert(a[6] == 'G');
    assert(a[7] == 'H');
    assert(a[8] == 'I');
    assert(a[9] == 'J');
    assert(a[10] == 'K');
    assert(a[11] == 'L');
    assert(a[12] == 'M');
    assert(a[13] == 'N');
    assert(a[14] == 'O');
    assert(a[15] == 'P');
    assert(a[16] == 'Q');
    assert(a[17] == 'R');
    assert(a[18] == 'S');
    assert(a[19] == 'T');
    assert(a[20] == 'U');
    assert(a[21] == 'V');
    assert(a[22] == 'W');
    assert(a[23] == 'X');
    assert(a[24] == 'Y');
    assert(a[25] == 'Z');
    assert(a[26] == 'a');
    assert(a[27] == 'b');
    assert(a[28] == 'c');
    assert(a[29] == 'd');
    assert(a[30] == 'e');
    assert(a[31] == 'f');
    assert(a[32] == 'g');
    assert(a[33] == 'h');
    assert(a[34] == 'i');
    assert(a[35] == 'j');
    assert(a[36] == 'k');
    assert(a[37] == 'l');
    assert(a[38] == 'm');
    assert(a[39] == 'n');
    assert(a[40] == 'o');
    assert(a[41] == 'p');
    assert(a[42] == 'q');
    assert(a[43] == 'r');
    assert(a[44] == 's');
    assert(a[45] == 't');
    assert(a[46] == 'u');
    assert(a[47] == 'v');
    assert(a[48] == 'w');
    assert(a[49] == 'x');
    assert(a[50] == 'y');
    assert(a[51] == 'z');
    assert(a[52] == '0');
    assert(a[53] == '1');
    assert(a[54] == '2');
    assert(a[55] == '3');
    assert(a[56] == '4');
    assert(a[57] == '5');
    assert(a[58] == '6');
    assert(a[59] == '7');
    assert(a[60] == '8');
    assert(a[61] == '9');
    assert(a[62] == '+');
    assert(a[63] == '/');
}

proof fn lemma_sextet_at(bytes: Seq<u8>, i: int)
    requires
        0 <= i,
        3 * i < 4 * bytes.len(),
    ensures
        i < base64_text(bytes).len(),
        0 <= six_bits(bytes, i) < 64,
        sextet(base64_text(bytes)[i]) == six_bits(bytes, i),
{
    lemma_alphabet(six_bits(bytes, i));
}

/// Base64 reads back: four characters stand for six bits each, and together for three bytes;
/// at the end one byte takes two characters and two signs of equality, and two bytes take
/// three characters and one sign.
pub proof fn lemma_base64_reads_back(bytes: Seq<u8>, k: int)
    requires
        0 <= k,
        3 * k < bytes.len(),
    ensures
        ({
            let t = base64_text(bytes);
            &&& t.len() % 4 == 0
            &&& bytes.len() <= 3 * (t.len() / 4) < bytes.len() + 3
            &&& 4 * k + 3 < t.len()
            &&& 3 * k + 2 < bytes.len() ==> 262144 * sextet(t[4 * k]) + 4096 * sextet(t[4 * k + 1]) + 64
                * sextet(t[4 * k + 2]) + sextet(t[4 * k + 3]) == 65536 * bytes[3 * k] + 256 * bytes[3
                * k + 1] + bytes[3 * k + 2]
            &&& 3 * k + 2 == bytes.len() ==> t[4 * k + 3] == '=' && 4096 * sextet(t[4 * k]) + 64
                * sextet(t[4 * k + 1]) + sextet(t[4 * k + 2]) == 4 * (256 * bytes[3 * k] + bytes[3 * k
                + 1])
            &&& 3 * k + 1 == bytes.len() ==> t[4 * k + 2] == '=' && t[4 * k + 3] == '=' && 64 * sextet(
                t[4 * k],
            ) + sextet(t[4 * k + 1]) == 16 * bytes[3 * k]
        }),
{
    let n = bytes.len() as int;
    lemma_sextet_at(bytes, 4 * k);
    lemma_sextet_at(bytes, 4 * k + 1);
    if 3 * k + 1 < n {
        lemma_sextet_at(bytes, 4 * k + 2);
    }
    if 3 * k + 2 < n {
        lemma_sextet_at(bytes, 4 * k + 3);
    }
}

/// The address of a picture names its kind and its encoding, and then holds the file.
pub proof fn lemma_data_uri(png: Seq<u8>)
    ensures
        data_uri(png) == "data:image/png;base64,"@ + base64_text(png),
        data_uri(png).skip("data:image/png;base64,"@.len() as int) == base64_text(png),
{
    assert(data_uri(png).skip("data:image/png;base64,"@.len() as int) =~= base64_text(png));
}

/// What a decoder gave becomes a picture of those sides, its pixels four bytes each, red
/// first, if and only if there are four bytes for each cell and they can be held; a decoder
/// that failed is quoted.
pub proof fn lemma_decoded_pixels(
    parts: Result<(u32, u32, Vec<u8>), String>,
    r: Result<RgbaImage, DecodeError>,
    i: int,
)
    requires
        makes(parts, r),
    ensures
        parts matches Ok((w, h, raw)) ==> {
            &&& r is Ok <==> raw@.len() == 4 * (w * h) && can_hold(w as int, h as int)
            &&& r matches Err(e) ==> e is WrongSize
            &&& r matches Ok(img) ==> {
                &&& img@.width == w
                &&& img@.height == h
                &&& img@.px.len() == w * h
                &&& 0 <= i < w * h ==> img@.px[i].r == raw@[4 * i] && img@.px[i].g == raw@[4 * i + 1]
                    && img@.px[i].b == raw@[4 * i + 2] && img@.px[i].a == raw@[4 * i + 3]
            }
        },
        parts matches Err(s) ==> (r matches Err(DecodeError::Unreadable(t)) && t@ == s@),
{
}

} // verus!
