//! Pool definition texts.
//!
//! A pool definition text declares pools, one section each. A section
//! begins with the name of the pool between brackets on a line of its own.
//! The lines that follow give the type of the pool, `type = "ipv4"`,
//! `type = "integer"` or `type = "string"`, and either its ranges,
//! `ranges = [{ start = "..", end = ".." }, ..]`, or its prefix,
//! `prefix = "../.."`.

use crate::lexer::{tokenize, tokens_of, Token, TokenView};
use crate::strings::same_text;
use crate::value::ValueType;
use vstd::prelude::*;
use vstd::string::StrSliceExecFns;

verus! {

/// A range of values, by the canonical texts of its two ends.
#[derive(Debug)]
pub struct Range {
    pub start: String,
    pub end: String,
}

/// A range as mathematics has it.
pub struct RangeView {
    pub start: Seq<char>,
    pub end: Seq<char>,
}

impl DeepView for Range {
    type V = RangeView;

    open spec fn deep_view(&self) -> RangeView {
        RangeView { start: self.start@, end: self.end@ }
    }
}

/// What the values of a pool are made from.
#[derive(Debug)]
pub enum Seed {
    Ranges(Vec<Range>),
    Prefix(String),
}

/// A seed as mathematics has it.
pub enum SeedView {
    Ranges(Seq<RangeView>),
    Prefix(Seq<char>),
}

impl DeepView for Seed {
    type V = SeedView;

    open spec fn deep_view(&self) -> SeedView {
        match *self {
            Seed::Ranges(r) => SeedView::Ranges(r.deep_view()),
            Seed::Prefix(p) => SeedView::Prefix(p@),
        }
    }
}

/// The definition of one pool: its name, its type, and what its values are
/// made from.
#[derive(Debug)]
pub struct PoolDefinition {
    pub name: String,
    pub value_type: ValueType,
    pub seed: Seed,
}

/// A pool definition as mathematics has it.
pub struct DefinitionView {
    pub name: Seq<char>,
    pub value_type: ValueType,
    pub seed: SeedView,
}

impl DeepView for PoolDefinition {
    type V = DefinitionView;

    open spec fn deep_view(&self) -> DefinitionView {
        DefinitionView {
            name: self.name@,
            value_type: self.value_type,
            seed: self.seed.deep_view(),
        }
    }
}

/// What the lines of a section have said so far.
struct Body {
    value_type: Option<ValueType>,
    ranges: Option<Vec<Range>>,
    prefix: Option<String>,
}

/// The lines of a section as mathematics has them.
pub struct BodyView {
    pub value_type: Option<ValueType>,
    pub ranges: Option<Seq<RangeView>>,
    pub prefix: Option<Seq<char>>,
}

impl DeepView for Body {
    type V = BodyView;

    closed spec fn deep_view(&self) -> BodyView {
        BodyView {
            value_type: self.value_type,
            ranges: self.ranges.deep_view(),
            prefix: self.prefix.deep_view(),
        }
    }
}

/// The first place from `i` on that holds no line end.
pub open spec fn skip_newlines(t: Seq<TokenView>, i: int) -> int
    decreases t.len() - i,
{
    if 0 <= i < t.len() && t[i] is Newline {
        skip_newlines(t, i + 1)
    } else {
        i
    }
}

/// Line ends are skipped forwards, and not beyond the end.
pub proof fn lemma_skip_newlines(t: Seq<TokenView>, i: int)
    requires
        0 <= i <= t.len(),
    ensures
        i <= skip_newlines(t, i) <= t.len(),
    decreases t.len() - i,
{
    if i < t.len() && t[i] is Newline {
        lemma_skip_newlines(t, i + 1);
    }
}

/// The range that the nine tokens from `i` on spell: a brace, the two ends
/// by their names `start` and `end`, in either order and with a comma
/// between them, and a brace.
pub open spec fn range_at(t: Seq<TokenView>, i: int) -> Option<RangeView> {
    if 0 <= i && i + 9 <= t.len() && t[i] is OpenBrace && t[i + 1] is Word && t[i + 2] is Equals
        && t[i + 3] is Text && t[i + 4] is Comma && t[i + 5] is Word && t[i + 6] is Equals && t[i
        + 7] is Text && t[i + 8] is CloseBrace {
        let first = t[i + 1]->Word_0;
        let second = t[i + 5]->Word_0;
        if first == "start"@ && second == "end"@ {
            Some(RangeView { start: t[i + 3]->Text_0, end: t[i + 7]->Text_0 })
        } else if first == "end"@ && second == "start"@ {
            Some(RangeView { start: t[i + 7]->Text_0, end: t[i + 3]->Text_0 })
        } else {
            None
        }
    } else {
        None
    }
}

/// The ranges that the tokens from `i` on list, up to the bracket that
/// closes the list, and the place behind that bracket. There is a comma
/// between two ranges; a comma may follow the last; lines may end before
/// and after each range.
pub open spec fn ranges_from(t: Seq<TokenView>, i: int) -> Option<(Seq<RangeView>, int)>
    decreases t.len() - i,
{
    if i < 0 || i > t.len() {
        None
    } else {
        let a = skip_newlines(t, i);
        if a >= t.len() {
            None
        } else if t[a] is Close {
            Some((Seq::empty(), a + 1))
        } else {
            match range_at(t, a) {
                None => None,
                Some(r) => {
                    let b = skip_newlines(t, a + 9);
                    if b >= t.len() {
                        None
                    } else if t[b] is Close {
                        Some((seq![r], b + 1))
                    } else if t[b] is Comma {
                        proof {
                            lemma_skip_newlines(t, i);
                            lemma_skip_newlines(t, a + 9);
                        }
                        match ranges_from(t, b + 1) {
                            None => None,
                            Some((rest, e)) => Some((seq![r] + rest, e)),
                        }
                    } else {
                        None
                    }
                },
            }
        }
    }
}

/// A list of ranges ends behind its beginning, within the tokens.
pub proof fn lemma_ranges_from_end(t: Seq<TokenView>, i: int)
    requires
        ranges_from(t, i) is Some,
    ensures
        i < ranges_from(t, i)->Some_0.1 <= t.len(),
    decreases t.len() - i,
{
    lemma_skip_newlines(t, i);
    let a = skip_newlines(t, i);
    if !(t[a] is Close) {
        lemma_skip_newlines(t, a + 9);
        let b = skip_newlines(t, a + 9);
        if t[b] is Comma {
            lemma_ranges_from_end(t, b + 1);
        }
    }
}

/// The type that a text names.
pub open spec fn type_named(v: Seq<char>) -> Option<ValueType> {
    if v == "ipv4"@ {
        Some(ValueType::Ipv4)
    } else if v == "integer"@ {
        Some(ValueType::Integer)
    } else if v == "string"@ {
        Some(ValueType::String)
    } else {
        None
    }
}

/// What the entry that begins at `i` adds to what the section has said so
/// far, and the place behind the entry. An entry is a key, an equals sign
/// and what the key is set to. The keys are `type`, `prefix` and `ranges`,
/// and none may be set twice.
pub open spec fn entry_at(t: Seq<TokenView>, i: int, body: BodyView) -> Option<(BodyView, int)> {
    if 0 <= i && i + 2 < t.len() && t[i] is Word && t[i + 1] is Equals {
        let key = t[i]->Word_0;
        if key == "type"@ {
            if t[i + 2] is Text && body.value_type is None {
                match type_named(t[i + 2]->Text_0) {
                    Some(vt) => Some((BodyView { value_type: Some(vt), ..body }, i + 3)),
                    None => None,
                }
            } else {
                None
            }
        } else if key == "prefix"@ {
            if t[i + 2] is Text && body.prefix is None {
                Some((BodyView { prefix: Some(t[i + 2]->Text_0), ..body }, i + 3))
            } else {
                None
            }
        } else if key == "ranges"@ {
            if t[i + 2] is Open && body.ranges is None {
                match ranges_from(t, i + 3) {
                    Some((ranges, e)) => Some((BodyView { ranges: Some(ranges), ..body }, e)),
                    None => None,
                }
            } else {
                None
            }
        } else {
            None
        }
    } else {
        None
    }
}

/// An entry ends behind its beginning, within the tokens.
pub proof fn lemma_entry_at_end(t: Seq<TokenView>, i: int, body: BodyView)
    requires
        entry_at(t, i, body) is Some,
    ensures
        i < entry_at(t, i, body)->Some_0.1 <= t.len(),
{
    let key = t[i]->Word_0;
    if key != "type"@ && key != "prefix"@ {
        lemma_ranges_from_end(t, i + 3);
    }
}

/// What the entries from `i` on add to what the section has said so far,
/// up to the next section or the end, and the place where they end. Each
/// entry ends with its line.
pub open spec fn body_from(t: Seq<TokenView>, i: int, body: BodyView) -> Option<(BodyView, int)>
    decreases t.len() - i,
{
    if i < 0 || i > t.len() {
        None
    } else {
        let a = skip_newlines(t, i);
        if a >= t.len() || t[a] is Open {
            Some((body, a))
        } else {
            match entry_at(t, a, body) {
                None => None,
                Some((more, e)) => if e < t.len() && !(t[e] is Newline) {
                    None
                } else {
                    proof {
                        lemma_skip_newlines(t, i);
                        lemma_entry_at_end(t, a, body);
                    }
                    body_from(t, e, more)
                },
            }
        }
    }
}

/// The entries of a section end at or behind their beginning, within the
/// tokens.
pub proof fn lemma_body_from_end(t: Seq<TokenView>, i: int, body: BodyView)
    requires
        body_from(t, i, body) is Some,
    ensures
        i <= body_from(t, i, body)->Some_0.1 <= t.len(),
    decreases t.len() - i,
{
    lemma_skip_newlines(t, i);
    let a = skip_newlines(t, i);
    if !(a >= t.len() || t[a] is Open) {
        lemma_entry_at_end(t, a, body);
        let e = entry_at(t, a, body)->Some_0.1;
        lemma_body_from_end(t, e, entry_at(t, a, body)->Some_0.0);
    }
}

/// A section that has said nothing yet.
pub open spec fn empty_body() -> BodyView {
    BodyView { value_type: None, ranges: None, prefix: None }
}

/// The definition of the pool `name` that a section amounts to: it must
/// have given the type, and either ranges or a prefix.
pub open spec fn definition_of(name: Seq<char>, body: BodyView) -> Option<DefinitionView> {
    match (body.value_type, body.ranges, body.prefix) {
        (Some(value_type), Some(ranges), None) => Some(
            DefinitionView { name, value_type, seed: SeedView::Ranges(ranges) },
        ),
        (Some(value_type), None, Some(prefix)) => Some(
            DefinitionView { name, value_type, seed: SeedView::Prefix(prefix) },
        ),
        _ => None,
    }
}

/// The name that a token gives to a pool, where it gives one: a bare word
/// or a quoted text that is not empty.
pub open spec fn name_of(token: TokenView) -> Option<Seq<char>> {
    match token {
        TokenView::Word(w) => Some(w),
        TokenView::Text(w) => if w.len() > 0 {
            Some(w)
        } else {
            None
        },
        _ => None,
    }
}

/// The definition that the section beginning at `i` gives, and the place
/// where the section ends. The head of a section is a name between
/// brackets, and the line ends behind it.
pub open spec fn section_at(t: Seq<TokenView>, i: int) -> Option<(DefinitionView, int)> {
    if 0 <= i && i + 2 < t.len() && t[i] is Open && name_of(t[i + 1]) is Some && t[i + 2] is Close
        && (i + 3 == t.len() || t[i + 3] is Newline) {
        match body_from(t, i + 3, empty_body()) {
            Some((body, e)) => match definition_of(name_of(t[i + 1])->Some_0, body) {
                Some(d) => Some((d, e)),
                None => None,
            },
            None => None,
        }
    } else {
        None
    }
}

/// The definitions that the sections from `i` on give, in their order.
pub open spec fn sections_from(t: Seq<TokenView>, i: int) -> Option<Seq<DefinitionView>>
    decreases t.len() - i,
{
    if i < 0 || i > t.len() {
        None
    } else {
        let a = skip_newlines(t, i);
        if a >= t.len() {
            Some(Seq::empty())
        } else {
            match section_at(t, a) {
                None => None,
                Some((d, e)) => {
                    proof {
                        lemma_skip_newlines(t, i);
                        lemma_body_from_end(t, a + 3, empty_body());
                    }
                    match sections_from(t, e) {
                        Some(rest) => Some(seq![d] + rest),
                        None => None,
                    }
                },
            }
        }
    }
}

/// The definitions that a pool definition text gives, in their order,
/// where it is one.
pub open spec fn definitions_of(s: Seq<u8>) -> Option<Seq<DefinitionView>> {
    match tokens_of(s) {
        Some(t) => sections_from(t, 0),
        None => None,
    }
}

/// The first place from `i` on that holds no line end.
fn skip_lines(t: &Vec<Token>, i: usize) -> (a: usize)
    requires
        i <= t@.len(),
    ensures
        a == skip_newlines(t.deep_view(), i as int),
        i <= a <= t@.len(),
{
    let mut a: usize = i;
    while a < t.len() && is_newline(&t[a])
        invariant
            i <= a <= t@.len(),
            skip_newlines(t.deep_view(), i as int) == skip_newlines(t.deep_view(), a as int),
        decreases t@.len() - a,
    {
        a = a + 1;
    }
    a
}

fn is_newline(token: &Token) -> (r: bool)
    ensures
        r == (token.deep_view() is Newline),
{
    match token {
        Token::Newline => true,
        _ => false,
    }
}

fn is_open(token: &Token) -> (r: bool)
    ensures
        r == (token.deep_view() is Open),
{
    match token {
        Token::Open => true,
        _ => false,
    }
}

fn is_close(token: &Token) -> (r: bool)
    ensures
        r == (token.deep_view() is Close),
{
    match token {
        Token::Close => true,
        _ => false,
    }
}

fn is_open_brace(token: &Token) -> (r: bool)
    ensures
        r == (token.deep_view() is OpenBrace),
{
    match token {
        Token::OpenBrace => true,
        _ => false,
    }
}

fn is_close_brace(token: &Token) -> (r: bool)
    ensures
        r == (token.deep_view() is CloseBrace),
{
    match token {
        Token::CloseBrace => true,
        _ => false,
    }
}

fn is_equals(token: &Token) -> (r: bool)
    ensures
        r == (token.deep_view() is Equals),
{
    match token {
        Token::Equals => true,
        _ => false,
    }
}

fn is_comma(token: &Token) -> (r: bool)
    ensures
        r == (token.deep_view() is Comma),
{
    match token {
        Token::Comma => true,
        _ => false,
    }
}

/// The bare word that a token is, if it is one.
fn word_of(token: &Token) -> (r: Option<&str>)
    ensures
        match r {
            Some(w) => token.deep_view() == TokenView::Word(w@),
            None => !(token.deep_view() is Word),
        },
{
    match token {
        Token::Word(w) => Some(w.as_str()),
        _ => None,
    }
}

/// The quoted text that a token is, if it is one.
fn text_of(token: &Token) -> (r: Option<&str>)
    ensures
        match r {
            Some(w) => token.deep_view() == TokenView::Text(w@),
            None => !(token.deep_view() is Text),
        },
{
    match token {
        Token::Text(w) => Some(w.as_str()),
        _ => None,
    }
}

/// The range that the nine tokens from `i` on spell.
fn read_range(t: &Vec<Token>, i: usize) -> (r: Option<Range>)
    requires
        i <= t@.len(),
    ensures
        r.deep_view() == range_at(t.deep_view(), i as int),
{
    if t.len() - i < 9 {
        return None;
    }
    if !is_open_brace(&t[i]) || !is_equals(&t[i + 2]) || !is_comma(&t[i + 4]) || !is_equals(
        &t[i + 6],
    ) || !is_close_brace(&t[i + 8]) {
        return None;
    }
    match (word_of(&t[i + 1]), text_of(&t[i + 3]), word_of(&t[i + 5]), text_of(&t[i + 7])) {
        (Some(first), Some(a), Some(second), Some(b)) => {
            if same_text(first, "start") && same_text(second, "end") {
                Some(Range { start: a.to_owned(), end: b.to_owned() })
            } else if same_text(first, "end") && same_text(second, "start") {
                Some(Range { start: b.to_owned(), end: a.to_owned() })
            } else {
                None
            }
        },
        _ => None,
    }
}

/// The ranges that the tokens from `i` on list, and the place behind the
/// bracket that closes the list.
fn read_ranges(t: &Vec<Token>, i: usize) -> (r: Option<(Vec<Range>, usize)>)
    requires
        i <= t@.len(),
    ensures
        match r {
            Some((ranges, e)) => ranges_from(t.deep_view(), i as int) == Some(
                (ranges.deep_view(), e as int),
            ) && i < e <= t@.len(),
            None => ranges_from(t.deep_view(), i as int) is None,
        },
{
    let ghost tv = t.deep_view();
    let mut out: Vec<Range> = Vec::new();
    let mut pos: usize = i;
    loop
        invariant
            tv == t.deep_view(),
            i <= pos <= t@.len(),
            ranges_from(tv, i as int) == match ranges_from(tv, pos as int) {
                Some((rest, e)) => Some((out.deep_view() + rest, e)),
                None => None,
            },
        decreases t@.len() - pos,
    {
        let a = skip_lines(t, pos);
        if a >= t.len() {
            return None;
        }
        if is_close(&t[a]) {
            proof {
                assert(out.deep_view() + Seq::<RangeView>::empty() =~= out.deep_view());
            }
            return Some((out, a + 1));
        }
        match read_range(t, a) {
            None => {
                return None;
            },
            Some(range) => {
                let b = skip_lines(t, a + 9);
                if b >= t.len() {
                    return None;
                }
                let ghost before = out.deep_view();
                let ghost rv = range.deep_view();
                if is_close(&t[b]) {
                    out.push(range);
                    proof {
                        assert(out.deep_view() =~= before + seq![rv]);
                    }
                    return Some((out, b + 1));
                } else if is_comma(&t[b]) {
                    out.push(range);
                    proof {
                        assert(out.deep_view() =~= before + seq![rv]);
                        match ranges_from(tv, b + 1) {
                            Some((rest, e)) => {
                                assert(before + (seq![rv] + rest) =~= out.deep_view() + rest);
                            },
                            None => {},
                        }
                    }
                    pos = b + 1;
                } else {
                    return None;
                }
            },
        }
    }
}

/// The type that a text names.
fn read_type(v: &str) -> (r: Option<ValueType>)
    ensures
        r == type_named(v@),
{
    if same_text(v, "ipv4") {
        Some(ValueType::Ipv4)
    } else if same_text(v, "integer") {
        Some(ValueType::Integer)
    } else if same_text(v, "string") {
        Some(ValueType::String)
    } else {
        None
    }
}

/// What the entry that begins at `i` adds to `body`, and the place behind
/// the entry.
fn read_entry(t: &Vec<Token>, i: usize, body: Body) -> (r: Option<(Body, usize)>)
    requires
        i <= t@.len(),
    ensures
        match r {
            Some((more, e)) => entry_at(t.deep_view(), i as int, body.deep_view()) == Some(
                (more.deep_view(), e as int),
            ) && i < e <= t@.len(),
            None => entry_at(t.deep_view(), i as int, body.deep_view()) is None,
        },
{
    if t.len() - i < 3 {
        return None;
    }
    if !is_equals(&t[i + 1]) {
        return None;
    }
    let key = match word_of(&t[i]) {
        Some(key) => key,
        None => {
            return None;
        },
    };
    let mut body = body;
    if same_text(key, "type") {
        match text_of(&t[i + 2]) {
            Some(v) => {
                if body.value_type.is_some() {
                    return None;
                }
                match read_type(v) {
                    Some(vt) => {
                        body.value_type = Some(vt);
                        Some((body, i + 3))
                    },
                    None => None,
                }
            },
            None => None,
        }
    } else if same_text(key, "prefix") {
        match text_of(&t[i + 2]) {
            Some(v) => {
                if body.prefix.is_some() {
                    return None;
                }
                body.prefix = Some(v.to_owned());
                Some((body, i + 3))
            },
            None => None,
        }
    } else if same_text(key, "ranges") {
        if !is_open(&t[i + 2]) || body.ranges.is_some() {
            return None;
        }
        match read_ranges(t, i + 3) {
            Some((ranges, e)) => {
                body.ranges = Some(ranges);
                Some((body, e))
            },
            None => None,
        }
    } else {
        None
    }
}

/// What the entries from `i` on say, and the place where they end.
fn read_body(t: &Vec<Token>, i: usize) -> (r: Option<(Body, usize)>)
    requires
        i <= t@.len(),
    ensures
        match r {
            Some((body, e)) => body_from(t.deep_view(), i as int, empty_body()) == Some(
                (body.deep_view(), e as int),
            ) && i <= e <= t@.len(),
            None => body_from(t.deep_view(), i as int, empty_body()) is None,
        },
{
    let ghost tv = t.deep_view();
    let mut body = Body { value_type: None, ranges: None, prefix: None };
    let mut pos: usize = i;
    loop
        invariant
            tv == t.deep_view(),
            i <= pos <= t@.len(),
            body_from(tv, i as int, empty_body()) == body_from(tv, pos as int, body.deep_view()),
        decreases t@.len() - pos,
    {
        let a = skip_lines(t, pos);
        if a >= t.len() || is_open(&t[a]) {
            return Some((body, a));
        }
        match read_entry(t, a, body) {
            None => {
                return None;
            },
            Some((more, e)) => {
                if e < t.len() && !is_newline(&t[e]) {
                    return None;
                }
                body = more;
                pos = e;
            },
        }
    }
}

/// The definition that the section beginning at `i` gives, and the place
/// where the section ends.
fn read_section(t: &Vec<Token>, i: usize) -> (r: Option<(PoolDefinition, usize)>)
    requires
        i <= t@.len(),
    ensures
        match r {
            Some((d, e)) => section_at(t.deep_view(), i as int) == Some((d.deep_view(), e as int))
                && i < e <= t@.len(),
            None => section_at(t.deep_view(), i as int) is None,
        },
{
    if t.len() - i < 3 {
        return None;
    }
    if !is_open(&t[i]) || !is_close(&t[i + 2]) {
        return None;
    }
    if i + 3 < t.len() && !is_newline(&t[i + 3]) {
        return None;
    }
    let name: String = match &t[i + 1] {
        Token::Word(w) => w.clone(),
        Token::Text(w) => {
            if w.as_str().unicode_len() == 0 {
                return None;
            }
            w.clone()
        },
        _ => {
            return None;
        },
    };
    match read_body(t, i + 3) {
        None => None,
        Some((body, e)) => {
            let Body { value_type, ranges, prefix } = body;
            match (value_type, ranges, prefix) {
                (Some(value_type), Some(ranges), None) => Some(
                    (PoolDefinition { name, value_type, seed: Seed::Ranges(ranges) }, e),
                ),
                (Some(value_type), None, Some(prefix)) => Some(
                    (PoolDefinition { name, value_type, seed: Seed::Prefix(prefix) }, e),
                ),
                _ => None,
            }
        },
    }
}

/// Reads a pool definition text. Gives the definitions of its sections, in
/// their order, or nothing where the text is not a pool definition text.
pub fn parse_definitions(text: &[u8]) -> (r: Option<Vec<PoolDefinition>>)
    ensures
        r.deep_view() == definitions_of(text@),
{
    let t = match tokenize(text) {
        Some(t) => t,
        None => {
            return None;
        },
    };
    let ghost tv = t.deep_view();
    let mut out: Vec<PoolDefinition> = Vec::new();
    let mut pos: usize = 0;
    loop
        invariant
            tv == t.deep_view(),
            tokens_of(text@) == Some(tv),
            pos <= t@.len(),
            sections_from(tv, 0) == match sections_from(tv, pos as int) {
                Some(rest) => Some(out.deep_view() + rest),
                None => None,
            },
        decreases t@.len() - pos,
    {
        let a = skip_lines(&t, pos);
        if a >= t.len() {
            proof {
                assert(out.deep_view() + Seq::<DefinitionView>::empty() =~= out.deep_view());
            }
            return Some(out);
        }
        match read_section(&t, a) {
            None => {
                return None;
            },
            Some((d, e)) => {
                let ghost before = out.deep_view();
                let ghost dv = d.deep_view();
                out.push(d);
                proof {
                    assert(out.deep_view() =~= before + seq![dv]);
                    match sections_from(tv, e as int) {
                        Some(rest) => {
                            assert(before + (seq![dv] + rest) =~= out.deep_view() + rest);
                        },
                        None => {},
                    }
                }
                pos = e;
            },
        }
    }
}

} // verus!
