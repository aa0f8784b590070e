//! The ANSI code pages that an RTF body can name, and the decoding of single
//! bytes in them.

use vstd::prelude::*;

verus! {

/// A single- or double-byte character set that an RTF `\ansicpgN` can select.
#[derive(Clone, Copy, Debug, PartialEq, Eq, Structural)]
pub enum Charset {
    Windows1252,
    Windows1250,
    Windows1251,
    Windows1253,
    Windows1254,
    Windows1255,
    Windows1256,
    Windows1257,
    Windows1258,
    ShiftJis,
    Gbk,
    EucKr,
    Big5,
    Windows874,
}

/// The character set of a Windows code page number, where it is one of those known.
pub open spec fn charset_of_codepage(codepage: u16) -> Option<Charset> {
    match codepage {
        1252 => Some(Charset::Windows1252),
        1250 => Some(Charset::Windows1250),
        1251 => Some(Charset::Windows1251),
        1253 => Some(Charset::Windows1253),
        1254 => Some(Charset::Windows1254),
        1255 => Some(Charset::Windows1255),
        1256 => Some(Charset::Windows1256),
        1257 => Some(Charset::Windows1257),
        1258 => Some(Charset::Windows1258),
        932 => Some(Charset::ShiftJis),
        936 => Some(Charset::Gbk),
        949 => Some(Charset::EucKr),
        950 => Some(Charset::Big5),
        874 => Some(Charset::Windows874),
        _ => None,
    }
}

/// The name under which the Encoding Standard knows a character set.
pub open spec fn charset_label(c: Charset) -> Seq<char> {
    match c {
        Charset::Windows1252 => "windows-1252"@,
        Charset::Windows1250 => "windows-1250"@,
        Charset::Windows1251 => "windows-1251"@,
        Charset::Windows1253 => "windows-1253"@,
        Charset::Windows1254 => "windows-1254"@,
        Charset::Windows1255 => "windows-1255"@,
        Charset::Windows1256 => "windows-1256"@,
        Charset::Windows1257 => "windows-1257"@,
        Charset::Windows1258 => "windows-1258"@,
        Charset::ShiftJis => "shift_jis"@,
        Charset::Gbk => "gbk"@,
        Charset::EucKr => "euc-kr"@,
        Charset::Big5 => "big5"@,
        Charset::Windows874 => "windows-874"@,
    }
}

/// Whether `label` is the name of one of the character sets above.
pub open spec fn is_charset_label(label: Seq<char>) -> bool {
    exists|c: Charset| #[trigger] charset_label(c) == label
}

/// What `encoding_rs` makes of the one byte `byte` in the encoding named `label`.
pub uninterp spec fn decoded_byte(label: Seq<char>, byte: u8) -> Seq<char>;

/// The text that a byte stands for in character set `c`.
pub open spec fn decode_byte_spec(c: Charset, byte: u8) -> Seq<char> {
    decoded_byte(charset_label(c), byte)
}

/// Maps a Windows code page number to its character set.
pub fn encoding_from_codepage(codepage: u16) -> (r: Option<Charset>)
    ensures
        r == charset_of_codepage(codepage),
{
    match codepage {
        1252 => Some(Charset::Windows1252),
        1250 => Some(Charset::Windows1250),
        1251 => Some(Charset::Windows1251),
        1253 => Some(Charset::Windows1253),
        1254 => Some(Charset::Windows1254),
        1255 => Some(Charset::Windows1255),
        1256 => Some(Charset::Windows1256),
        1257 => Some(Charset::Windows1257),
        1258 => Some(Charset::Windows1258),
        932 => Some(Charset::ShiftJis),
        936 => Some(Charset::Gbk),
        949 => Some(Charset::EucKr),
        950 => Some(Charset::Big5),
        874 => Some(Charset::Windows874),
        _ => None,
    }
}

impl Charset {
    /// The Encoding Standard name of this character set.
    pub fn label(&self) -> (l: &'static str)
        ensures
            l@ == charset_label(*self),
    {
        match self {
            Charset::Windows1252 => "windows-1252",
            Charset::Windows1250 => "windows-1250",
            Charset::Windows1251 => "windows-1251",
            Charset::Windows1253 => "windows-1253",
            Charset::Windows1254 => "windows-1254",
            Charset::Windows1255 => "windows-1255",
            Charset::Windows1256 => "windows-1256",
            Charset::Windows1257 => "windows-1257",
            Charset::Windows1258 => "windows-1258",
            Charset::ShiftJis => "shift_jis",
            Charset::Gbk => "gbk",
            Charset::EucKr => "euc-kr",
            Charset::Big5 => "big5",
            Charset::Windows874 => "windows-874",
        }
    }
}

/// `encoding_rs::Encoding::for_label` finds the encoding named `label`, and
/// `encoding_rs::Encoding::decode` decodes the one byte `byte` with it. The
/// contract claims that the text returned is a function of the label and the
/// byte alone (`decoded_byte`), and, through `requires`, that `for_label`
/// knows each label of `Charset` (the crate's label table lists all of them).
/// One byte never forms a byte order mark, so `decode` uses that encoding. The
/// contract states nothing of what the text is.
#[verifier::external_body]
fn decode_byte_in(label: &str, byte: u8) -> (text: String)
    requires
        is_charset_label(label@),
    ensures
        text@ == decoded_byte(label@, byte),
{
    let encoding = encoding_rs::Encoding::for_label(label.as_bytes()).unwrap();
    let bytes = [byte];
    let (text, _, _) = encoding.decode(&bytes);
    text.into_owned()
}

/// Decodes one byte in character set `charset`.
pub fn decode_byte(charset: Charset, byte: u8) -> (text: String)
    ensures
        text@ == decode_byte_spec(charset, byte),
{
    let label = charset.label();
    assert(is_charset_label(label@));
    decode_byte_in(label, byte)
}

/// The Windows code page number of each character set.
pub open spec fn charset_codepage(c: Charset) -> u16 {
    match c {
        Charset::Windows1252 => 1252,
        Charset::Windows1250 => 1250,
        Charset::Windows1251 => 1251,
        Charset::Windows1253 => 1253,
        Charset::Windows1254 => 1254,
        Charset::Windows1255 => 1255,
        Charset::Windows1256 => 1256,
        Charset::Windows1257 => 1257,
        Charset::Windows1258 => 1258,
        Charset::ShiftJis => 932,
        Charset::Gbk => 936,
        Charset::EucKr => 949,
        Charset::Big5 => 950,
        Charset::Windows874 => 874,
    }
}

/// Whether a character set is one of the `windows-N` code pages.
pub open spec fn is_windows_charset(c: Charset) -> bool {
    !(c == Charset::ShiftJis || c == Charset::Gbk || c == Charset::EucKr || c == Charset::Big5)
}

/// The decimal digits of `n`.
pub open spec fn decimal_chars(n: nat) -> Seq<char>
    decreases n,
{
    if n < 10 {
        seq![(48 + n) as char]
    } else {
        decimal_chars(n / 10).push((48 + n % 10) as char)
    }
}

/// A code page number maps to the character set of that same code page, and
/// each character set is reached from its own number: the mapping keeps the
/// number, and exactly the fourteen known code pages map to a character set.
pub proof fn lemma_codepage_mapping_keeps_the_number(cp: u16, c: Charset)
    ensures
        charset_of_codepage(charset_codepage(c)) == Some(c),
        charset_of_codepage(cp) matches Some(d) ==> charset_codepage(d) == cp,
        charset_of_codepage(cp) is Some <==> (cp == 874 || cp == 932 || cp == 936 || cp == 949
            || cp == 950 || (1250 <= cp <= 1258)),
{
}

/// Each character set is decoded with its own encoding: a `windows-N` character
/// set is named `windows-` and its code page number, and no two character sets
/// share a name.
pub proof fn lemma_charset_labels_name_their_code_page(c: Charset, d: Charset)
    ensures
        is_windows_charset(c) ==> charset_label(c) == "windows-"@ + decimal_chars(
            charset_codepage(c) as nat,
        ),
        c != d ==> charset_label(c) != charset_label(d),
{
    reveal_strlit("windows-");
    reveal_strlit("windows-1252");
    reveal_strlit("windows-1250");
    reveal_strlit("windows-1251");
    reveal_strlit("windows-1253");
    reveal_strlit("windows-1254");
    reveal_strlit("windows-1255");
    reveal_strlit("windows-1256");
    reveal_strlit("windows-1257");
    reveal_strlit("windows-1258");
    reveal_strlit("shift_jis");
    reveal_strlit("gbk");
    reveal_strlit("euc-kr");
    reveal_strlit("big5");
    reveal_strlit("windows-874");
    reveal_with_fuel(decimal_chars, 5);
    if is_windows_charset(c) {
        assert(charset_label(c) =~= "windows-"@ + decimal_chars(charset_codepage(c) as nat));
    }
    if c != d {
        let lc = charset_label(c);
        let ld = charset_label(d);
        if lc.len() == ld.len() {
            assert(exists|k: int| 0 <= k < lc.len() && lc[k] != ld[k]) by {
                if lc.len() == 12 {
                    assert(lc[11] != ld[11] || lc[10] != ld[10]);
                } else if lc.len() == 11 {
                    assert(lc[10] != ld[10]);
                } else {
                    assert(lc[0] != ld[0]);
                }
            }
        }
    }
}

/// The text of each of the 256 byte values in some character set.
pub struct ByteTexts {
    pub texts: Vec<String>,
}

impl View for ByteTexts {
    type V = Seq<Seq<char>>;

    open spec fn view(&self) -> Seq<Seq<char>> {
        self.texts@.map_values(|s: String| s@)
    }
}

/// The text of each byte value in character set `c`.
pub open spec fn charset_texts(c: Charset) -> Seq<Seq<char>> {
    Seq::new(256, |x: int| decode_byte_spec(c, x as u8))
}

/// The byte texts of a character set give, for each of the 256 byte values,
/// what `encoding_rs` decodes that byte to in the encoding of that character set.
pub proof fn lemma_charset_texts_decode_each_byte(c: Charset, x: u8)
    ensures
        charset_texts(c).len() == 256,
        charset_texts(c)[x as int] == decoded_byte(charset_label(c), x),
{
}

impl ByteTexts {
    /// Decodes each of the 256 byte values in character set `charset`.
    pub fn for_charset(charset: Charset) -> (r: Self)
        ensures
            r@ == charset_texts(charset),
    {
        let mut texts: Vec<String> = Vec::new();
        let mut k: u32 = 0;
        while k < 256
            invariant
                k <= 256,
                texts@.len() == k,
                forall|x: int| 0 <= x < k ==> #[trigger] texts@[x]@ == decode_byte_spec(charset, x as u8),
            decreases 256 - k,
        {
            texts.push(decode_byte(charset, k as u8));
            k += 1;
        }
        let r = ByteTexts { texts };
        assert(r@ =~= charset_texts(charset));
        r
    }

    /// The text of byte value `byte`.
    pub fn text_of(&self, byte: u8) -> (r: &str)
        requires
            self@.len() == 256,
        ensures
            r@ == self@[byte as int],
    {
        self.texts[byte as usize].as_str()
    }
}

} // verus!
