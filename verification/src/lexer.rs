//! The tokens of a pool definition text.
//!
//! A pool definition text is made of brackets, braces, equals signs,
//! commas, line ends, bare words and quoted texts. Blanks between them and
//! comments, which run from a `#` to the end of the line, mean nothing.

use vstd::prelude::*;

verus! {

/// One token of a pool definition text.
#[derive(Debug)]
pub enum Token {
    /// `[`
    Open,
    /// `]`
    Close,
    /// `{`
    OpenBrace,
    /// `}`
    CloseBrace,
    /// `=`
    Equals,
    /// `,`
    Comma,
    /// The end of a line.
    Newline,
    /// A bare word: letters, digits, `_` and `-`.
    Word(String),
    /// A text between double quotes.
    Text(String),
}

/// A token as mathematics has it.
pub enum TokenView {
    Open,
    Close,
    OpenBrace,
    CloseBrace,
    Equals,
    Comma,
    Newline,
    Word(Seq<char>),
    Text(Seq<char>),
}

impl DeepView for Token {
    type V = TokenView;

    open spec fn deep_view(&self) -> TokenView {
        match *self {
            Token::Open => TokenView::Open,
            Token::Close => TokenView::Close,
            Token::OpenBrace => TokenView::OpenBrace,
            Token::CloseBrace => TokenView::CloseBrace,
            Token::Equals => TokenView::Equals,
            Token::Comma => TokenView::Comma,
            Token::Newline => TokenView::Newline,
            Token::Word(w) => TokenView::Word(w@),
            Token::Text(t) => TokenView::Text(t@),
        }
    }
}

/// Whether `b` is a blank: a space, a tab or a carriage return.
pub open spec fn is_blank(b: u8) -> bool {
    b == 32 || b == 9 || b == 13
}

/// Whether `b` may stand in a bare word: a letter, a digit, `_` or `-`.
pub open spec fn is_word_byte(b: u8) -> bool {
    (97 <= b <= 122) || (65 <= b <= 90) || (48 <= b <= 57) || b == 95 || b == 45
}

/// Whether `b` may stand in a quoted text: a printable ASCII character
/// other than the double quote and the backslash.
pub open spec fn is_text_byte(b: u8) -> bool {
    32 <= b <= 126 && b != 34 && b != 92
}

/// The end of the bare word that begins at `i`.
pub open spec fn word_end(s: Seq<u8>, i: int) -> int
    decreases s.len() - i,
{
    if 0 <= i < s.len() && is_word_byte(s[i]) {
        word_end(s, i + 1)
    } else {
        i
    }
}

/// The end of the run of text characters that begins at `i`.
pub open spec fn text_end(s: Seq<u8>, i: int) -> int
    decreases s.len() - i,
{
    if 0 <= i < s.len() && is_text_byte(s[i]) {
        text_end(s, i + 1)
    } else {
        i
    }
}

/// The end of the line in which `i` lies: the place of the next line feed,
/// or the end of the text.
pub open spec fn line_end(s: Seq<u8>, i: int) -> int
    decreases s.len() - i,
{
    if 0 <= i < s.len() && s[i] != 10 {
        line_end(s, i + 1)
    } else {
        i
    }
}

/// The bytes from `from` up to `to`, as characters.
pub open spec fn chars_of(s: Seq<u8>, from: int, to: int) -> Seq<char> {
    Seq::new((to - from) as nat, |k: int| s[from + k] as char)
}

/// What begins at `i`, a place within the text: a token and the place
/// behind it, or a blank or a comment, which give no token, and the place
/// behind that. Nothing where no token can begin with the byte at `i`, or
/// a quoted text is not closed within its line.
pub open spec fn token_at(s: Seq<u8>, i: int) -> Option<(Option<TokenView>, int)> {
    let b = s[i];
    if is_blank(b) {
        Some((None, i + 1))
    } else if b == 35 {
        Some((None, line_end(s, i + 1)))
    } else if b == 10 {
        Some((Some(TokenView::Newline), i + 1))
    } else if b == 91 {
        Some((Some(TokenView::Open), i + 1))
    } else if b == 93 {
        Some((Some(TokenView::Close), i + 1))
    } else if b == 123 {
        Some((Some(TokenView::OpenBrace), i + 1))
    } else if b == 125 {
        Some((Some(TokenView::CloseBrace), i + 1))
    } else if b == 61 {
        Some((Some(TokenView::Equals), i + 1))
    } else if b == 44 {
        Some((Some(TokenView::Comma), i + 1))
    } else if b == 34 {
        let e = text_end(s, i + 1);
        if e < s.len() && s[e] == 34 {
            Some((Some(TokenView::Text(chars_of(s, i + 1, e))), e + 1))
        } else {
            None
        }
    } else if is_word_byte(b) {
        Some((Some(TokenView::Word(chars_of(s, i, word_end(s, i)))), word_end(s, i)))
    } else {
        None
    }
}

/// The tokens of the text from `i` on, where it is made of tokens, blanks
/// and comments alone. What begins at a place ends behind that place and
/// within the text.
pub open spec fn tokens_from(s: Seq<u8>, i: int) -> Option<Seq<TokenView>>
    decreases s.len() - i,
{
    if i < 0 || i >= s.len() {
        Some(Seq::empty())
    } else {
        match token_at(s, i) {
            None => None,
            Some((token, next)) => if next <= i || next > s.len() {
                None
            } else {
                match tokens_from(s, next) {
                    None => None,
                    Some(rest) => Some(
                        match token {
                            Some(t) => seq![t] + rest,
                            None => rest,
                        },
                    ),
                }
            },
        }
    }
}

/// The tokens of a text.
pub open spec fn tokens_of(s: Seq<u8>) -> Option<Seq<TokenView>> {
    tokens_from(s, 0)
}

/// A bare word ends within the text, at or behind its beginning.
pub proof fn lemma_word_end(s: Seq<u8>, i: int)
    requires
        0 <= i <= s.len(),
    ensures
        i <= word_end(s, i) <= s.len(),
        i < s.len() && is_word_byte(s[i]) ==> i < word_end(s, i),
    decreases s.len() - i,
{
    if i < s.len() && is_word_byte(s[i]) {
        lemma_word_end(s, i + 1);
    }
}

/// The characters of the bytes from `from` up to `to`.
fn copy_chars(text: &[u8], from: usize, to: usize) -> (r: String)
    requires
        from <= to <= text@.len(),
    ensures
        r@ == chars_of(text@, from as int, to as int),
{
    let mut out = String::new();
    let mut i: usize = from;
    while i < to
        invariant
            from <= i <= to <= text@.len(),
            out@ == chars_of(text@, from as int, i as int),
        decreases to - i,
    {
        out.push(text[i] as char);
        i = i + 1;
        proof {
            assert(out@ =~= chars_of(text@, from as int, i as int));
        }
    }
    proof {
        assert(out@ =~= chars_of(text@, from as int, to as int));
    }
    out
}

/// Whether `b` is a blank.
fn blank(b: u8) -> (r: bool)
    ensures
        r == is_blank(b),
{
    b == 32 || b == 9 || b == 13
}

/// Whether `b` may stand in a bare word.
fn word_byte(b: u8) -> (r: bool)
    ensures
        r == is_word_byte(b),
{
    (97 <= b && b <= 122) || (65 <= b && b <= 90) || (48 <= b && b <= 57) || b == 95 || b == 45
}

/// Whether `b` may stand in a quoted text.
fn text_byte(b: u8) -> (r: bool)
    ensures
        r == is_text_byte(b),
{
    32 <= b && b <= 126 && b != 34 && b != 92
}

/// The end of the bare word that begins at `i`.
fn find_word_end(text: &[u8], i: usize) -> (e: usize)
    requires
        i <= text@.len(),
    ensures
        e == word_end(text@, i as int),
        i <= e <= text@.len(),
{
    let mut e: usize = i;
    while e < text.len() && word_byte(text[e])
        invariant
            i <= e <= text@.len(),
            word_end(text@, i as int) == word_end(text@, e as int),
        decreases text@.len() - e,
    {
        e = e + 1;
    }
    e
}

/// The end of the run of text characters that begins at `i`.
fn find_text_end(text: &[u8], i: usize) -> (e: usize)
    requires
        i <= text@.len(),
    ensures
        e == text_end(text@, i as int),
        i <= e <= text@.len(),
{
    let mut e: usize = i;
    while e < text.len() && text_byte(text[e])
        invariant
            i <= e <= text@.len(),
            text_end(text@, i as int) == text_end(text@, e as int),
        decreases text@.len() - e,
    {
        e = e + 1;
    }
    e
}

/// The end of the line in which `i` lies.
fn find_line_end(text: &[u8], i: usize) -> (e: usize)
    requires
        i <= text@.len(),
    ensures
        e == line_end(text@, i as int),
        i <= e <= text@.len(),
{
    let mut e: usize = i;
    while e < text.len() && text[e] != 10
        invariant
            i <= e <= text@.len(),
            line_end(text@, i as int) == line_end(text@, e as int),
        decreases text@.len() - e,
    {
        e = e + 1;
    }
    e
}

/// What begins at `i`.
fn read_token(text: &[u8], i: usize) -> (r: Option<(Option<Token>, usize)>)
    requires
        i < text@.len(),
    ensures
        match r {
            Some((token, next)) => token_at(text@, i as int) == Some((token.deep_view(), next as int))
                && i < next <= text@.len(),
            None => token_at(text@, i as int) is None,
        },
{
    let b = text[i];
    if blank(b) {
        Some((None, i + 1))
    } else if b == 35 {
        Some((None, find_line_end(text, i + 1)))
    } else if b == 10 {
        Some((Some(Token::Newline), i + 1))
    } else if b == 91 {
        Some((Some(Token::Open), i + 1))
    } else if b == 93 {
        Some((Some(Token::Close), i + 1))
    } else if b == 123 {
        Some((Some(Token::OpenBrace), i + 1))
    } else if b == 125 {
        Some((Some(Token::CloseBrace), i + 1))
    } else if b == 61 {
        Some((Some(Token::Equals), i + 1))
    } else if b == 44 {
        Some((Some(Token::Comma), i + 1))
    } else if b == 34 {
        let e = find_text_end(text, i + 1);
        if e < text.len() && text[e] == 34 {
            Some((Some(Token::Text(copy_chars(text, i + 1, e))), e + 1))
        } else {
            None
        }
    } else if word_byte(b) {
        proof {
            lemma_word_end(text@, i as int);
        }
        let e = find_word_end(text, i);
        Some((Some(Token::Word(copy_chars(text, i, e))), e))
    } else {
        None
    }
}

/// Splits a pool definition text into its tokens. Gives nothing where a
/// byte stands where no token can begin, or a quoted text is not closed
/// within its line.
pub fn tokenize(text: &[u8]) -> (r: Option<Vec<Token>>)
    ensures
        r.deep_view() == tokens_of(text@),
{
    let mut out: Vec<Token> = Vec::new();
    let mut i: usize = 0;
    while i < text.len()
        invariant
            i <= text@.len(),
            tokens_of(text@) == match tokens_from(text@, i as int) {
                Some(rest) => Some(out.deep_view() + rest),
                None => None,
            },
        decreases text@.len() - i,
    {
        match read_token(text, i) {
            None => {
                return None;
            },
            Some((token, next)) => {
                let ghost before = out.deep_view();
                let ghost tv = token.deep_view();
                match token {
                    Some(t) => {
                        out.push(t);
                        proof {
                            assert(out.deep_view() =~= before + seq![tv->Some_0]);
                            match tokens_from(text@, next as int) {
                                Some(rest) => {
                                    assert(before + (seq![tv->Some_0] + rest) =~= out.deep_view() + rest);
                                },
                                None => {},
                            }
                        }
                    },
                    None => {},
                }
                i = next;
            },
        }
    }
    proof {
        assert(out.deep_view() + Seq::<TokenView>::empty() =~= out.deep_view());
    }
    Some(out)
}

} // verus!
