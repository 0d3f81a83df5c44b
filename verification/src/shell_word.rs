//! How a shell reads a word that [`escape`](crate::bash::escape) wrote, and
//! the proof that it reads back the bytes that went in.
//!
//! The model covers the two forms that the encoder writes: a word of bytes
//! without any special meaning, which stands for itself, and the ANSI-C
//! quoted string `$'...'`, in which a backslash begins one of the sequences
//! `\a \b \e \f \n \r \t \v \\ \'` or `\x` with one or two hexadecimal
//! digits, and every other byte but `'` stands for itself.

use crate::bash::{
    body, classes_of, classify, escaped, hex_digit, is_plain, quoted, EscapeAs, BACKSLASH, DOLLAR,
    QUOTE,
};
use vstd::prelude::*;

verus! {

/// The value of a hexadecimal digit.
pub open spec fn hex_value(digit: u8) -> Option<u8> {
    if 0x30 <= digit <= 0x39 {
        Some((digit - 0x30) as u8)
    } else if 0x41 <= digit <= 0x46 {
        Some((digit - 0x41 + 10) as u8)
    } else if 0x61 <= digit <= 0x66 {
        Some((digit - 0x61 + 10) as u8)
    } else {
        None
    }
}

/// The byte that a backslash followed by `letter` stands for.
pub open spec fn named_byte(letter: u8) -> Option<u8> {
    if letter == 0x61 {
        Some(0x07u8)
    } else if letter == 0x62 {
        Some(0x08u8)
    } else if letter == 0x65 {
        Some(0x1Bu8)
    } else if letter == 0x66 {
        Some(0x0Cu8)
    } else if letter == 0x6E {
        Some(0x0Au8)
    } else if letter == 0x72 {
        Some(0x0Du8)
    } else if letter == 0x74 {
        Some(0x09u8)
    } else if letter == 0x76 {
        Some(0x0Bu8)
    } else if letter == BACKSLASH {
        Some(BACKSLASH)
    } else if letter == QUOTE {
        Some(QUOTE)
    } else {
        None
    }
}

/// `first` put before the bytes of `rest`, where there are any.
pub open spec fn prepend(first: u8, rest: Option<Seq<u8>>) -> Option<Seq<u8>> {
    match rest {
        Some(bytes) => Some(seq![first] + bytes),
        None => None,
    }
}

/// The bytes that the body of an ANSI-C quoted string stands for; `None`
/// where the body holds a bare `'` or a sequence that is not covered.
pub open spec fn unquote(text: Seq<u8>) -> Option<Seq<u8>>
    decreases text.len(),
{
    if text.len() == 0 {
        Some(Seq::empty())
    } else if text[0] == QUOTE {
        None
    } else if text[0] != BACKSLASH {
        prepend(text[0], unquote(text.subrange(1, text.len() as int)))
    } else if text.len() < 2 {
        None
    } else if text[1] == 0x78 {
        if text.len() >= 4 && hex_value(text[2]) is Some && hex_value(text[3]) is Some {
            prepend(
                (hex_value(text[2]).unwrap() * 16 + hex_value(text[3]).unwrap()) as u8,
                unquote(text.subrange(4, text.len() as int)),
            )
        } else if text.len() >= 3 && hex_value(text[2]) is Some {
            prepend(hex_value(text[2]).unwrap(), unquote(text.subrange(3, text.len() as int)))
        } else {
            None
        }
    } else {
        match named_byte(text[1]) {
            Some(byte) => prepend(byte, unquote(text.subrange(2, text.len() as int))),
            None => None,
        }
    }
}

/// The bytes that a word stands for: the word itself where all its bytes
/// are safe, the unquoted body where it is an ANSI-C quoted string, and
/// `None` for any other word.
pub open spec fn word_value(word: Seq<u8>) -> Option<Seq<u8>> {
    if is_plain(word) {
        Some(word)
    } else if word.len() >= 3 && word[0] == DOLLAR && word[1] == QUOTE && word.last() == QUOTE {
        unquote(word.subrange(2, word.len() - 1))
    } else {
        None
    }
}

/// What is written for one byte is read back as that byte.
proof fn lemma_unquote_one(byte: u8, rest: Seq<u8>)
    ensures
        unquote(classify(byte).bytes() + rest) == prepend(byte, unquote(rest)),
{
    let written = classify(byte).bytes();
    let text = written + rest;
    assert(text.subrange(written.len() as int, text.len() as int) =~= rest);
    assert(text[0] == written[0]);
    match classify(byte) {
        EscapeAs::ByValue(ch) => {
            assert(ch == byte);
            let high = (byte / 16) as u8;
            let low = (byte % 16) as u8;
            assert(text[1] == written[1]);
            assert(text[2] == hex_digit(high));
            assert(text[3] == hex_digit(low));
            assert(hex_value(hex_digit(high)) == Some(high));
            assert(hex_value(hex_digit(low)) == Some(low));
            assert(high * 16 + low == byte);
        },
        EscapeAs::Literal(ch) => {
            assert(ch == byte);
        },
        EscapeAs::Quoted(ch) => {
            assert(ch == byte);
        },
        _ => {
            assert(text[1] == written[1]);
        },
    }
}

/// The body written for a byte string is read back as that byte string.
proof fn lemma_unquote_body(s: Seq<u8>)
    ensures
        unquote(body(classes_of(s))) == Some(s),
    decreases s.len(),
{
    let classes = classes_of(s);
    if s.len() == 0 {
        assert(body(classes) =~= Seq::<u8>::empty());
        assert(s =~= Seq::<u8>::empty());
    } else {
        let rest = s.drop_first();
        assert(classes.drop_first() =~= classes_of(rest));
        assert(classes.first() == classify(s[0]));
        lemma_unquote_body(rest);
        lemma_unquote_one(s[0], body(classes_of(rest)));
        assert(seq![s[0]] + rest =~= s);
    }
}

/// A shell reads the word written for a byte string back as that byte
/// string, whatever bytes it holds.
pub proof fn lemma_escape_round_trip(s: Seq<u8>)
    ensures
        word_value(escaped(s)) == Some(s),
{
    if !is_plain(s) {
        let word = quoted(classes_of(s));
        let inner = body(classes_of(s));
        assert(word[0] == DOLLAR);
        assert(word[1] == QUOTE);
        assert(word.last() == QUOTE);
        assert(!(classify(word[0]) is Literal));
        assert(word.subrange(2, word.len() - 1) =~= inner);
        lemma_unquote_body(s);
    }
}

} // verus!
