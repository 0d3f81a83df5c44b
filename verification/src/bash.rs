//! Rendering bytes as one word of a POSIX shell that supports ANSI-C quoted
//! strings.
//!
//! A byte string made only of letters, digits and `, . / _ -` stands for
//! itself. Any other is wrapped in `$'` and `'`; inside, a byte is written
//! as itself, as a two-character backslash sequence, or as `\xHH`.

use vstd::prelude::*;

verus! {

/// How one byte is written inside `$'...'`.
#[derive(Clone, Copy, Debug, PartialEq, Eq, Structural)]
pub enum EscapeAs {
    /// `\a`
    Bell,
    /// `\b`
    Backspace,
    /// `\e`
    Escape,
    /// `\f`
    FormFeed,
    /// `\n`
    NewLine,
    /// `\r`
    CarriageReturn,
    /// `\t`
    HorizontalTab,
    /// `\v`
    VerticalTab,
    /// `\\`
    Backslash,
    /// `\'`
    SingleQuote,
    /// `\xHH`, for the other control bytes and the bytes from 0x80.
    ByValue(u8),
    /// A letter, a digit or one of `, . / _ -`: safe anywhere.
    Literal(u8),
    /// Printable punctuation that a shell may act on: safe inside `$'...'`.
    Quoted(u8),
}

/// The class of a byte.
pub open spec fn classify(ch: u8) -> EscapeAs {
    if ch == 0x07 {
        EscapeAs::Bell
    } else if ch == 0x08 {
        EscapeAs::Backspace
    } else if ch == 0x1B {
        EscapeAs::Escape
    } else if ch == 0x0C {
        EscapeAs::FormFeed
    } else if ch == 0x0A {
        EscapeAs::NewLine
    } else if ch == 0x0D {
        EscapeAs::CarriageReturn
    } else if ch == 0x09 {
        EscapeAs::HorizontalTab
    } else if ch == 0x0B {
        EscapeAs::VerticalTab
    } else if ch == 0x5C {
        EscapeAs::Backslash
    } else if ch == 0x27 {
        EscapeAs::SingleQuote
    } else if is_literal_byte(ch) {
        EscapeAs::Literal(ch)
    } else if 0x20 <= ch < 0x7F {
        EscapeAs::Quoted(ch)
    } else {
        EscapeAs::ByValue(ch)
    }
}

/// A letter, a digit or one of `, . / _ -`.
pub open spec fn is_literal_byte(ch: u8) -> bool {
    ||| 0x61 <= ch <= 0x7A
    ||| 0x41 <= ch <= 0x5A
    ||| 0x30 <= ch <= 0x39
    ||| ch == 0x2C
    ||| ch == 0x2E
    ||| ch == 0x2F
    ||| ch == 0x5F
    ||| ch == 0x2D
}

/// The upper-case hexadecimal digit for a value below 16.
pub open spec fn hex_digit(nibble: u8) -> u8 {
    if nibble < 10 {
        (0x30 + nibble) as u8
    } else {
        (0x41 + (nibble - 10)) as u8
    }
}

impl EscapeAs {
    /// The bytes written for a byte of this class.
    pub open spec fn bytes(self) -> Seq<u8> {
        match self {
            EscapeAs::Bell => seq![0x5Cu8, 0x61u8],
            EscapeAs::Backspace => seq![0x5Cu8, 0x62u8],
            EscapeAs::Escape => seq![0x5Cu8, 0x65u8],
            EscapeAs::FormFeed => seq![0x5Cu8, 0x66u8],
            EscapeAs::NewLine => seq![0x5Cu8, 0x6Eu8],
            EscapeAs::CarriageReturn => seq![0x5Cu8, 0x72u8],
            EscapeAs::HorizontalTab => seq![0x5Cu8, 0x74u8],
            EscapeAs::VerticalTab => seq![0x5Cu8, 0x76u8],
            EscapeAs::Backslash => seq![0x5Cu8, 0x5Cu8],
            EscapeAs::SingleQuote => seq![0x5Cu8, 0x27u8],
            EscapeAs::ByValue(ch) => seq![0x5Cu8, 0x78u8, hex_digit(ch / 16), hex_digit(ch % 16)],
            EscapeAs::Literal(ch) => seq![ch],
            EscapeAs::Quoted(ch) => seq![ch],
        }
    }

    /// Classifies one byte.
    pub fn from(ch: u8) -> (class: Self)
        ensures
            class == classify(ch),
    {
        match ch {
            BEL => EscapeAs::Bell,
            BS => EscapeAs::Backspace,
            ESC => EscapeAs::Escape,
            FF => EscapeAs::FormFeed,
            LF => EscapeAs::NewLine,
            CR => EscapeAs::CarriageReturn,
            TAB => EscapeAs::HorizontalTab,
            VT => EscapeAs::VerticalTab,
            BACKSLASH => EscapeAs::Backslash,
            QUOTE => EscapeAs::SingleQuote,
            // Letters, digits, and the punctuation `, - . /` and `_`.
            0x61..=0x7A | 0x41..=0x5A | 0x30..=0x39 => EscapeAs::Literal(ch),
            0x2C..=0x2F | 0x5F => EscapeAs::Literal(ch),
            // The rest of the printable range: space and the punctuation
            // that a shell may act on.
            0x20..=0x7E => EscapeAs::Quoted(ch),
            // The other control bytes, and the bytes from 0x80.
            _ => EscapeAs::ByValue(ch),
        }
    }

    /// Whether a byte of this class is safe outside any quoting.
    pub fn is_literal(&self) -> (literal: bool)
        ensures
            literal == (*self is Literal),
    {
        match self {
            EscapeAs::Literal(_) => true,
            _ => false,
        }
    }

    /// The number of bytes written for a byte of this class.
    pub fn size(&self) -> (size: usize)
        ensures
            size == self.bytes().len(),
    {
        match self {
            EscapeAs::Bell => 2,
            EscapeAs::Backspace => 2,
            EscapeAs::Escape => 2,
            EscapeAs::FormFeed => 2,
            EscapeAs::NewLine => 2,
            EscapeAs::CarriageReturn => 2,
            EscapeAs::HorizontalTab => 2,
            EscapeAs::VerticalTab => 2,
            EscapeAs::Backslash => 2,
            EscapeAs::SingleQuote => 2,
            EscapeAs::ByValue(_) => 4,
            EscapeAs::Literal(_) => 1,
            EscapeAs::Quoted(_) => 1,
        }
    }
}

pub const BEL: u8 = 0x07;

pub const BS: u8 = 0x08;

pub const TAB: u8 = 0x09;

pub const LF: u8 = 0x0A;

pub const VT: u8 = 0x0B;

pub const FF: u8 = 0x0C;

pub const CR: u8 = 0x0D;

pub const ESC: u8 = 0x1B;

pub const BACKSLASH: u8 = 0x5C;

pub const QUOTE: u8 = 0x27;

pub const DOLLAR: u8 = 0x24;

/// Every byte of `s` is safe outside any quoting.
pub open spec fn is_plain(s: Seq<u8>) -> bool {
    forall|i: int| 0 <= i < s.len() ==> (#[trigger] classify(s[i])) is Literal
}

/// The bytes written for a list of classes, one after the other.
pub open spec fn body(classes: Seq<EscapeAs>) -> Seq<u8>
    decreases classes.len(),
{
    if classes.len() == 0 {
        Seq::empty()
    } else {
        classes.first().bytes() + body(classes.drop_first())
    }
}

/// The body between `$'` and `'`.
pub open spec fn quoted(classes: Seq<EscapeAs>) -> Seq<u8> {
    seq![0x24u8, 0x27u8] + body(classes) + seq![0x27u8]
}

/// The classes of the bytes of `s`.
pub open spec fn classes_of(s: Seq<u8>) -> Seq<EscapeAs> {
    s.map_values(|ch: u8| classify(ch))
}

/// The word that stands for the bytes `s`: `s` itself where every byte is
/// safe, else the ANSI-C quoted string.
pub open spec fn escaped(s: Seq<u8>) -> Seq<u8> {
    if is_plain(s) {
        s
    } else {
        quoted(classes_of(s))
    }
}

/// One more class at the end adds its bytes at the end.
pub proof fn lemma_body_push(classes: Seq<EscapeAs>, class: EscapeAs)
    ensures
        body(classes.push(class)) == body(classes) + class.bytes(),
    decreases classes.len(),
{
    let longer = classes.push(class);
    if classes.len() == 0 {
        assert(longer.drop_first() =~= Seq::<EscapeAs>::empty());
        assert(longer.first() == class);
        assert(body(longer.drop_first()) =~= Seq::<u8>::empty());
        assert(body(longer) =~= class.bytes());
        assert(body(classes) + class.bytes() =~= class.bytes());
    } else {
        assert(longer.drop_first() =~= classes.drop_first().push(class));
        assert(longer.first() == classes.first());
        lemma_body_push(classes.drop_first(), class);
        assert(body(longer) =~= body(classes) + class.bytes());
    }
}

/// The word that a shell reads back as exactly the bytes `s`.
///
/// A byte string of letters, digits and `, . / _ -` alone is returned as it
/// is, the empty one too. Any other comes back between `$'` and `'`, with
/// each byte written as its class says.
pub fn escape(s: &[u8]) -> (word: Vec<u8>)
    ensures
        word@ == escaped(s@),
{
    let mut sout: Vec<u8> = Vec::new();
    escape_into(s, &mut sout);
    assert(sout@ =~= escaped(s@));
    sout
}

/// Appends to `sout` the word that [`escape`] returns for `s`.
pub fn escape_into(s: &[u8], sout: &mut Vec<u8>)
    ensures
        final(sout)@ == old(sout)@ + escaped(s@),
{
    match _prepare(s) {
        Some(esc) => {
            let mut size: usize = 3;
            let mut i: usize = 0;
            while i < esc.len()
                invariant
                    i <= esc.len(),
                decreases esc.len() - i,
            {
                let more = esc[i].size();
                if size <= usize::MAX - more {
                    size = size + more;
                }
                i += 1;
            }
            sout.reserve(size);
            _escape_into(esc, sout);
        },
        None => {
            let mut i: usize = 0;
            while i < s.len()
                invariant
                    i <= s.len(),
                    sout@ == old(sout)@ + s@.subrange(0, i as int),
                decreases s.len() - i,
            {
                sout.push(s[i]);
                assert(sout@ =~= old(sout)@ + s@.subrange(0, i + 1));
                i += 1;
            }
            assert(s@.subrange(0, s@.len() as int) =~= s@);
        },
    }
}

/// The classes of the bytes of `sin`, or `None` where every byte is safe
/// and nothing needs quoting.
fn _prepare(sin: &[u8]) -> (esc: Option<Vec<EscapeAs>>)
    ensures
        esc is None <==> is_plain(sin@),
        esc matches Some(classes) ==> classes@ == classes_of(sin@),
{
    let mut esc: Vec<EscapeAs> = Vec::with_capacity(sin.len());
    let mut plain = true;
    let mut i: usize = 0;
    while i < sin.len()
        invariant
            i <= sin.len(),
            esc@ == classes_of(sin@.subrange(0, i as int)),
            plain == is_plain(sin@.subrange(0, i as int)),
        decreases sin.len() - i,
    {
        let class = EscapeAs::from(sin[i]);
        if !class.is_literal() {
            plain = false;
        }
        esc.push(class);
        proof {
            let shorter = sin@.subrange(0, i as int);
            let longer = sin@.subrange(0, i + 1);
            assert(esc@ =~= classes_of(longer));
            if is_plain(shorter) && class is Literal {
                assert forall|j: int| 0 <= j < longer.len() implies (#[trigger] classify(
                    longer[j],
                )) is Literal by {
                    if j < i {
                        assert(longer[j] == shorter[j]);
                    }
                }
            }
            if is_plain(longer) {
                assert(classify(longer[i as int]) is Literal);
                assert forall|j: int| 0 <= j < shorter.len() implies (#[trigger] classify(
                    shorter[j],
                )) is Literal by {
                    assert(longer[j] == shorter[j]);
                }
            }
        }
        i += 1;
    }
    assert(sin@.subrange(0, sin@.len() as int) =~= sin@);
    if plain {
        None
    } else {
        Some(esc)
    }
}

/// The upper-case hexadecimal digit for a value below 16.
fn hex(nibble: u8) -> (digit: u8)
    requires
        nibble < 16,
    ensures
        digit == hex_digit(nibble),
{
    if nibble < 10 {
        0x30 + nibble
    } else {
        0x41 + (nibble - 10)
    }
}

/// Appends the ANSI-C quoted string for the given classes to `sout`.
fn _escape_into(esc: Vec<EscapeAs>, sout: &mut Vec<u8>)
    ensures
        final(sout)@ == old(sout)@ + quoted(esc@),
{
    sout.push(DOLLAR);
    sout.push(QUOTE);
    let mut i: usize = 0;
    assert(esc@.subrange(0, 0) =~= Seq::<EscapeAs>::empty());
    while i < esc.len()
        invariant
            i <= esc.len(),
            sout@ == old(sout)@ + seq![0x24u8, 0x27u8] + body(esc@.subrange(0, i as int)),
        decreases esc.len() - i,
    {
        let mode = esc[i];
        let ghost before = sout@;
        match mode {
            EscapeAs::Bell => {
                sout.push(BACKSLASH);
                sout.push(0x61);
            },
            EscapeAs::Backspace => {
                sout.push(BACKSLASH);
                sout.push(0x62);
            },
            EscapeAs::Escape => {
                sout.push(BACKSLASH);
                sout.push(0x65);
            },
            EscapeAs::FormFeed => {
                sout.push(BACKSLASH);
                sout.push(0x66);
            },
            EscapeAs::NewLine => {
                sout.push(BACKSLASH);
                sout.push(0x6E);
            },
            EscapeAs::CarriageReturn => {
                sout.push(BACKSLASH);
                sout.push(0x72);
            },
            EscapeAs::HorizontalTab => {
                sout.push(BACKSLASH);
                sout.push(0x74);
            },
            EscapeAs::VerticalTab => {
                sout.push(BACKSLASH);
                sout.push(0x76);
            },
            EscapeAs::Backslash => {
                sout.push(BACKSLASH);
                sout.push(BACKSLASH);
            },
            EscapeAs::SingleQuote => {
                sout.push(BACKSLASH);
                sout.push(QUOTE);
            },
            EscapeAs::ByValue(ch) => {
                sout.push(BACKSLASH);
                sout.push(0x78);
                sout.push(hex(ch / 16));
                sout.push(hex(ch % 16));
            },
            EscapeAs::Literal(ch) => {
                sout.push(ch);
            },
            EscapeAs::Quoted(ch) => {
                sout.push(ch);
            },
        }
        proof {
            assert(sout@ =~= before + mode.bytes());
            lemma_body_push(esc@.subrange(0, i as int), mode);
            assert(esc@.subrange(0, i + 1) =~= esc@.subrange(0, i as int).push(mode));
            assert(sout@ =~= old(sout)@ + seq![0x24u8, 0x27u8] + body(esc@.subrange(0, i + 1)));
        }
        i += 1;
    }
    sout.push(QUOTE);
    proof {
        assert(esc@.subrange(0, esc@.len() as int) =~= esc@);
        assert(sout@ =~= old(sout)@ + quoted(esc@));
    }
}

} // verus!
