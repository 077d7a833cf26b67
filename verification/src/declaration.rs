//! The declarations of a schema, as text: `primary_key = f1, f2` for the
//! primary key of a collection, and `index = f1, -f2; unique = true` for a
//! secondary index.
//!
//! A declaration is a keyword, an equals sign, and one or more fields
//! separated by commas; options may follow behind a semicolon, each a name,
//! an equals sign and `true` or `false`, separated by commas. A field is a
//! name, behind a minus sign where it is sorted in descending order. Names
//! are made of ASCII letters, digits and underscores and do not start with
//! a digit. Blanks may stand between the tokens.

use vstd::prelude::*;
use vstd::string::StringSliceAdditionalSpecFns;
use vstd::utf8::{decode_utf8, valid_utf8};
use crate::database::{CollectionDef, IndexDef};
use crate::document::{str_eq, string_from_utf8};
use crate::error::DbError;
use crate::index::{IndexField, IndexOptions, LexStats};
use crate::order::bytes_eq;
use crate::sort::SortDirection;

verus! {

/// A token of a declaration.
#[derive(Debug)]
pub enum Token {
    Ident(Vec<u8>),
    Equals,
    Comma,
    Semicolon,
    Minus,
}

/// A token as contracts see it.
pub enum TokenView {
    Ident(Seq<u8>),
    Equals,
    Comma,
    Semicolon,
    Minus,
}

impl View for Token {
    type V = TokenView;

    open spec fn view(&self) -> TokenView {
        match self {
            Token::Ident(name) => TokenView::Ident(name@),
            Token::Equals => TokenView::Equals,
            Token::Comma => TokenView::Comma,
            Token::Semicolon => TokenView::Semicolon,
            Token::Minus => TokenView::Minus,
        }
    }
}

/// The views of a list of tokens.
pub open spec fn token_views(tokens: Seq<Token>) -> Seq<TokenView> {
    Seq::new(tokens.len(), |i: int| tokens[i]@)
}

/// Whether a byte is a blank: a space, a tab, a line feed or a carriage
/// return.
pub open spec fn is_blank(b: u8) -> bool {
    b == 0x20 || b == 0x09 || b == 0x0a || b == 0x0d
}

/// Whether a byte may start a name: an ASCII letter or an underscore.
pub open spec fn starts_name(b: u8) -> bool {
    (0x41 <= b <= 0x5a) || (0x61 <= b <= 0x7a) || b == 0x5f
}

/// Whether a byte may stand in a name: an ASCII letter, a digit or an
/// underscore.
pub open spec fn continues_name(b: u8) -> bool {
    starts_name(b) || (0x30 <= b <= 0x39)
}

/// The token that a byte is, where it is one on its own.
pub open spec fn symbol(b: u8) -> Option<TokenView> {
    if b == 0x3d {
        Some(TokenView::Equals)
    } else if b == 0x2c {
        Some(TokenView::Comma)
    } else if b == 0x3b {
        Some(TokenView::Semicolon)
    } else if b == 0x2d {
        Some(TokenView::Minus)
    } else {
        None
    }
}

/// The number of bytes at the front of `text` that may stand in a name.
pub open spec fn name_length(text: Seq<u8>) -> int
    decreases text.len(),
{
    if text.len() > 0 && continues_name(text[0]) {
        1 + name_length(text.skip(1))
    } else {
        0
    }
}

/// The tokens of `text`, where `text` is made of tokens and blanks.
pub open spec fn lex(text: Seq<u8>) -> Option<Seq<TokenView>>
    decreases text.len(),
{
    if text.len() == 0 {
        Some(Seq::empty())
    } else if is_blank(text[0]) {
        lex(text.skip(1))
    } else if symbol(text[0]) is Some {
        match lex(text.skip(1)) {
            Some(rest) => Some(seq![symbol(text[0])->0] + rest),
            None => None,
        }
    } else if starts_name(text[0]) {
        let n = name_length(text);
        if 0 < n <= text.len() {
            match lex(text.skip(n)) {
                Some(rest) => Some(seq![TokenView::Ident(text.take(n))] + rest),
                None => None,
            }
        } else {
            None
        }
    } else {
        None
    }
}

pub proof fn lemma_name_length_bounds(text: Seq<u8>)
    ensures
        0 <= name_length(text) <= text.len(),
        forall|i: int| 0 <= i < name_length(text) ==> continues_name(#[trigger] text[i]),
        name_length(text) < text.len() ==> !continues_name(text[name_length(text)]),
    decreases text.len(),
{
    if text.len() > 0 && continues_name(text[0]) {
        lemma_name_length_bounds(text.skip(1));
        assert forall|i: int| 0 <= i < name_length(text) implies continues_name(
            #[trigger] text[i],
        ) by {
            if i > 0 {
                assert(text.skip(1)[i - 1] == text[i]);
            }
        }
        if name_length(text) < text.len() {
            assert(text.skip(1)[name_length(text.skip(1))] == text[name_length(text)]);
        }
    }
}

/// The number of bytes from position `from` of `text` that may stand in a
/// name.
fn scan_name(text: &[u8], from: usize) -> (n: usize)
    requires
        from <= text.len(),
    ensures
        n == name_length(text@.skip(from as int)),
        from + n <= text.len(),
{
    let mut n: usize = 0;
    proof {
        lemma_name_length_bounds(text@.skip(from as int));
    }
    while from + n < text.len() && is_name_byte(text[from + n])
        invariant
            from + n <= text.len(),
            name_length(text@.skip(from as int)) == n + name_length(text@.skip(from + n)),
        decreases text.len() - from - n,
    {
        proof {
            let rest = text@.skip(from + n);
            assert(rest[0] == text@[from + n]);
            assert(rest.skip(1) =~= text@.skip(from + n + 1));
        }
        n += 1;
    }
    proof {
        let rest = text@.skip(from + n);
        if from + n < text.len() {
            assert(rest[0] == text@[from + n]);
        }
    }
    n
}

fn is_name_byte(b: u8) -> (r: bool)
    ensures
        r == continues_name(b),
{
    (0x41 <= b && b <= 0x5a) || (0x61 <= b && b <= 0x7a) || b == 0x5f || (0x30 <= b && b <= 0x39)
}

fn is_blank_byte(b: u8) -> (r: bool)
    ensures
        r == is_blank(b),
{
    b == 0x20 || b == 0x09 || b == 0x0a || b == 0x0d
}

/// The tokens of `text`; none where `text` holds a byte that is neither a
/// blank nor part of a token.
pub fn tokenize(text: &[u8]) -> (r: Option<Vec<Token>>)
    ensures
        match r {
            Some(tokens) => lex(text@) == Some(token_views(tokens@)),
            None => lex(text@) is None,
        },
{
    let mut tokens: Vec<Token> = Vec::new();
    let mut pos: usize = 0;
    assert(text@.skip(0) =~= text@);
    assert(token_views(tokens@) =~= Seq::<TokenView>::empty());
    while pos < text.len()
        invariant
            pos <= text.len(),
            lex(text@) == match lex(text@.skip(pos as int)) {
                Some(rest) => Some(token_views(tokens@) + rest),
                None => None,
            },
        decreases text.len() - pos,
    {
        let ghost rest = text@.skip(pos as int);
        let ghost made = token_views(tokens@);
        let b = text[pos];
        assert(rest[0] == b);
        let token = if b == 0x3d {
            Some(Token::Equals)
        } else if b == 0x2c {
            Some(Token::Comma)
        } else if b == 0x3b {
            Some(Token::Semicolon)
        } else if b == 0x2d {
            Some(Token::Minus)
        } else {
            None
        };
        if is_blank_byte(b) {
            assert(rest.skip(1) =~= text@.skip(pos + 1));
            pos += 1;
        } else if token.is_some() {
            match token {
                Some(token) => {
                    tokens.push(token);
                },
                None => {},
            }
            proof {
                assert(rest.skip(1) =~= text@.skip(pos + 1));
                assert(token_views(tokens@) =~= made.push(symbol(b)->0));
                match lex(text@.skip(pos + 1)) {
                    Some(after) => {
                        assert(made + (seq![symbol(b)->0] + after) =~= made.push(symbol(b)->0)
                            + after);
                    },
                    None => {},
                }
            }
            pos += 1;
        } else if (0x41 <= b && b <= 0x5a) || (0x61 <= b && b <= 0x7a) || b == 0x5f {
            let n = scan_name(text, pos);
            proof {
                lemma_name_length_bounds(rest);
            }
            let name = vstd::slice::slice_to_vec(vstd::slice::slice_subrange(text, pos, pos + n));
            proof {
                assert(name@ =~= rest.take(n as int));
                assert(rest.skip(n as int) =~= text@.skip(pos + n));
            }
            tokens.push(Token::Ident(name));
            proof {
                let ident = TokenView::Ident(rest.take(n as int));
                assert(token_views(tokens@) =~= made.push(ident));
                match lex(text@.skip(pos + n)) {
                    Some(after) => {
                        assert(made + (seq![ident] + after) =~= made.push(ident) + after);
                    },
                    None => {},
                }
            }
            pos += n;
        } else {
            return None;
        }
    }
    assert(text@.skip(pos as int) =~= Seq::<u8>::empty());
    assert(token_views(tokens@) + Seq::<TokenView>::empty() =~= token_views(tokens@));
    Some(tokens)
}

/// One field of a declaration: its name, and the direction in which it
/// is sorted.
#[derive(Debug)]
pub struct FieldDeclaration {
    pub name: String,
    pub direction: SortDirection,
}

/// A declaration: its keyword, its fields, and its options in the order
/// in which they are written.
#[derive(Debug)]
pub struct IndexDeclaration {
    pub keyword: String,
    pub fields: Vec<FieldDeclaration>,
    pub options: Vec<(String, bool)>,
}

/// A field of a declaration as contracts see it.
pub struct FieldView {
    pub name: Seq<char>,
    pub descending: bool,
}

/// A declaration as contracts see it.
pub struct DeclarationView {
    pub keyword: Seq<char>,
    pub fields: Seq<FieldView>,
    pub options: Seq<(Seq<char>, bool)>,
}

impl View for FieldDeclaration {
    type V = FieldView;

    open spec fn view(&self) -> FieldView {
        FieldView { name: self.name@, descending: self.direction == SortDirection::Desc }
    }
}

/// The views of a list of fields.
pub open spec fn field_views(fields: Seq<FieldDeclaration>) -> Seq<FieldView> {
    Seq::new(fields.len(), |i: int| fields[i]@)
}

/// The views of a list of options.
pub open spec fn option_views(options: Seq<(String, bool)>) -> Seq<(Seq<char>, bool)> {
    Seq::new(options.len(), |i: int| (options[i].0@, options[i].1))
}

impl View for IndexDeclaration {
    type V = DeclarationView;

    open spec fn view(&self) -> DeclarationView {
        DeclarationView {
            keyword: self.keyword@,
            fields: field_views(self.fields@),
            options: option_views(self.options@),
        }
    }
}

/// The name that the token at `pos` is, where it is one.
pub open spec fn name_at(tokens: Seq<TokenView>, pos: int) -> Option<Seq<char>> {
    if 0 <= pos < tokens.len() && tokens[pos] is Ident && valid_utf8(tokens[pos]->Ident_0) {
        Some(decode_utf8(tokens[pos]->Ident_0))
    } else {
        None
    }
}

/// The field at `pos`, and the position behind it.
pub open spec fn field_at(tokens: Seq<TokenView>, pos: int) -> Option<(FieldView, int)> {
    if 0 <= pos < tokens.len() && tokens[pos] is Minus {
        match name_at(tokens, pos + 1) {
            Some(name) => Some((FieldView { name, descending: true }, pos + 2)),
            None => None,
        }
    } else {
        match name_at(tokens, pos) {
            Some(name) => Some((FieldView { name, descending: false }, pos + 1)),
            None => None,
        }
    }
}

/// The fields from `pos` on, separated by commas, and the position behind
/// them.
pub open spec fn fields_from(tokens: Seq<TokenView>, pos: int) -> Option<(Seq<FieldView>, int)>
    decreases tokens.len() - pos,
{
    match field_at(tokens, pos) {
        None => None,
        Some((field, next)) => if next < tokens.len() && tokens[next] is Comma {
            match fields_from(tokens, next + 1) {
                None => None,
                Some((fields, end)) => Some((seq![field] + fields, end)),
            }
        } else {
            Some((seq![field], next))
        },
    }
}

/// The bytes of `true`.
pub open spec fn true_bytes() -> Seq<u8> {
    seq![0x74u8, 0x72, 0x75, 0x65]
}

/// The bytes of `false`.
pub open spec fn false_bytes() -> Seq<u8> {
    seq![0x66u8, 0x61, 0x6c, 0x73, 0x65]
}

/// The option at `pos`, and the position behind it.
pub open spec fn option_at(tokens: Seq<TokenView>, pos: int) -> Option<((Seq<char>, bool), int)> {
    match name_at(tokens, pos) {
        None => None,
        Some(name) => if pos + 2 < tokens.len() && tokens[pos + 1] is Equals && tokens[pos + 2]
            is Ident && (tokens[pos + 2]->Ident_0 == true_bytes() || tokens[pos + 2]->Ident_0
            == false_bytes()) {
            Some(((name, tokens[pos + 2]->Ident_0 == true_bytes()), pos + 3))
        } else {
            None
        },
    }
}

/// The options from `pos` on, separated by commas, and the position
/// behind them.
pub open spec fn options_from(tokens: Seq<TokenView>, pos: int) -> Option<
    (Seq<(Seq<char>, bool)>, int),
>
    decreases tokens.len() - pos,
{
    match option_at(tokens, pos) {
        None => None,
        Some((option, next)) => if next < tokens.len() && tokens[next] is Comma {
            match options_from(tokens, next + 1) {
                None => None,
                Some((options, end)) => Some((seq![option] + options, end)),
            }
        } else {
            Some((seq![option], next))
        },
    }
}

/// The declaration that the tokens are, where they are one: a keyword, an
/// equals sign, fields, and options behind a semicolon where there are
/// any, and nothing else.
pub open spec fn declaration_of(tokens: Seq<TokenView>) -> Option<DeclarationView> {
    match name_at(tokens, 0) {
        None => None,
        Some(keyword) => if !(1 < tokens.len() && tokens[1] is Equals) {
            None
        } else {
            match fields_from(tokens, 2) {
                None => None,
                Some((fields, end)) => if end == tokens.len() {
                    Some(DeclarationView { keyword, fields, options: Seq::empty() })
                } else if tokens[end] is Semicolon {
                    match options_from(tokens, end + 1) {
                        Some((options, last)) => if last == tokens.len() {
                            Some(DeclarationView { keyword, fields, options })
                        } else {
                            None
                        },
                        None => None,
                    }
                } else {
                    None
                },
            }
        },
    }
}

/// The declaration that `text` states, where it states one.
pub open spec fn parsed(text: Seq<u8>) -> Option<DeclarationView> {
    match lex(text) {
        Some(tokens) => declaration_of(tokens),
        None => None,
    }
}

/// The name that the token at `pos` is.
fn read_name(tokens: &Vec<Token>, pos: usize) -> (r: Option<String>)
    ensures
        match r {
            Some(name) => name_at(token_views(tokens@), pos as int) == Some(name@),
            None => name_at(token_views(tokens@), pos as int) is None,
        },
{
    if pos >= tokens.len() {
        return None;
    }
    match &tokens[pos] {
        Token::Ident(bytes) => string_from_utf8(vstd::slice::slice_to_vec(bytes.as_slice())),
        _ => None,
    }
}

fn is_minus(tokens: &Vec<Token>, pos: usize) -> (r: bool)
    ensures
        r == (pos < tokens@.len() && token_views(tokens@)[pos as int] is Minus),
{
    if pos >= tokens.len() {
        return false;
    }
    match &tokens[pos] {
        Token::Minus => true,
        _ => false,
    }
}

fn is_comma(tokens: &Vec<Token>, pos: usize) -> (r: bool)
    ensures
        r == (pos < tokens@.len() && token_views(tokens@)[pos as int] is Comma),
{
    if pos >= tokens.len() {
        return false;
    }
    match &tokens[pos] {
        Token::Comma => true,
        _ => false,
    }
}

fn is_equals(tokens: &Vec<Token>, pos: usize) -> (r: bool)
    ensures
        r == (pos < tokens@.len() && token_views(tokens@)[pos as int] is Equals),
{
    if pos >= tokens.len() {
        return false;
    }
    match &tokens[pos] {
        Token::Equals => true,
        _ => false,
    }
}

fn is_semicolon(tokens: &Vec<Token>, pos: usize) -> (r: bool)
    ensures
        r == (pos < tokens@.len() && token_views(tokens@)[pos as int] is Semicolon),
{
    if pos >= tokens.len() {
        return false;
    }
    match &tokens[pos] {
        Token::Semicolon => true,
        _ => false,
    }
}

/// The fields from `pos` on, added to `fields`, and the position behind
/// them.
fn read_fields(tokens: &Vec<Token>, pos: usize, fields: &mut Vec<FieldDeclaration>) -> (r: Option<
    usize,
>)
    requires
        pos <= tokens.len(),
    ensures
        match r {
            Some(end) => fields_from(token_views(tokens@), pos as int) matches Some((read, at))
                && at == end && end <= tokens@.len() && field_views(final(fields)@) == field_views(
                old(fields)@,
            ) + read,
            None => fields_from(token_views(tokens@), pos as int) is None,
        },
    decreases tokens@.len() - pos,
{
    let ghost made = field_views(fields@);
    let (field, next) = if is_minus(tokens, pos) {
        match read_name(tokens, pos + 1) {
            Some(name) => (FieldDeclaration { name, direction: SortDirection::Desc }, pos + 2),
            None => {
                return None;
            },
        }
    } else {
        match read_name(tokens, pos) {
            Some(name) => (FieldDeclaration { name, direction: SortDirection::Asc }, pos + 1),
            None => {
                return None;
            },
        }
    };
    let ghost view = field@;
    fields.push(field);
    assert(field_views(fields@) =~= made.push(view));
    if is_comma(tokens, next) {
        let r = read_fields(tokens, next + 1, fields);
        proof {
            match fields_from(token_views(tokens@), next + 1) {
                Some((rest, end)) => {
                    assert(made.push(view) + rest =~= made + (seq![view] + rest));
                },
                None => {},
            }
        }
        r
    } else {
        assert(made.push(view) =~= made + seq![view]);
        Some(next)
    }
}

/// Whether the token at `pos` is the name `true`, or the name `false`.
fn read_bool(tokens: &Vec<Token>, pos: usize) -> (r: Option<bool>)
    requires
        pos < tokens@.len(),
    ensures
        match r {
            Some(value) => token_views(tokens@)[pos as int] is Ident && (token_views(
                tokens@,
            )[pos as int]->Ident_0 == true_bytes() || token_views(tokens@)[pos as int]->Ident_0
                == false_bytes()) && value == (token_views(tokens@)[pos as int]->Ident_0
                == true_bytes()),
            None => !(token_views(tokens@)[pos as int] is Ident && (token_views(
                tokens@,
            )[pos as int]->Ident_0 == true_bytes() || token_views(tokens@)[pos as int]->Ident_0
                == false_bytes())),
        },
{
    match &tokens[pos] {
        Token::Ident(bytes) => {
            let yes: [u8; 4] = [0x74, 0x72, 0x75, 0x65];
            let no: [u8; 5] = [0x66, 0x61, 0x6c, 0x73, 0x65];
            assert(yes@ =~= true_bytes());
            assert(no@ =~= false_bytes());
            if bytes_eq(bytes.as_slice(), yes.as_slice()) {
                Some(true)
            } else if bytes_eq(bytes.as_slice(), no.as_slice()) {
                assert(true_bytes() != false_bytes()) by {
                    assert(true_bytes().len() != false_bytes().len());
                }
                Some(false)
            } else {
                None
            }
        },
        _ => None,
    }
}

/// The options from `pos` on, added to `options`, and the position behind
/// them.
fn read_options(tokens: &Vec<Token>, pos: usize, options: &mut Vec<(String, bool)>) -> (r: Option<
    usize,
>)
    requires
        pos <= tokens.len(),
    ensures
        match r {
            Some(end) => options_from(token_views(tokens@), pos as int) matches Some((read, at))
                && at == end && end <= tokens@.len() && option_views(final(options)@)
                == option_views(old(options)@) + read,
            None => options_from(token_views(tokens@), pos as int) is None,
        },
    decreases tokens@.len() - pos,
{
    let ghost made = option_views(options@);
    let name = match read_name(tokens, pos) {
        Some(name) => name,
        None => {
            return None;
        },
    };
    if tokens.len() - pos < 3 || !is_equals(tokens, pos + 1) {
        return None;
    }
    let value = match read_bool(tokens, pos + 2) {
        Some(value) => value,
        None => {
            return None;
        },
    };
    let next = pos + 3;
    let ghost view = (name@, value);
    options.push((name, value));
    assert(option_views(options@) =~= made.push(view));
    if is_comma(tokens, next) {
        let r = read_options(tokens, next + 1, options);
        proof {
            match options_from(token_views(tokens@), next + 1) {
                Some((rest, end)) => {
                    assert(made.push(view) + rest =~= made + (seq![view] + rest));
                },
                None => {},
            }
        }
        r
    } else {
        assert(made.push(view) =~= made + seq![view]);
        Some(next)
    }
}

/// The declaration that the tokens are, where they are one.
pub fn parse_tokens(tokens: &Vec<Token>) -> (r: Option<IndexDeclaration>)
    ensures
        match r {
            Some(declaration) => declaration_of(token_views(tokens@)) == Some(declaration@),
            None => declaration_of(token_views(tokens@)) is None,
        },
{
    let keyword = match read_name(tokens, 0) {
        Some(keyword) => keyword,
        None => {
            return None;
        },
    };
    if !is_equals(tokens, 1) {
        return None;
    }
    let mut fields: Vec<FieldDeclaration> = Vec::new();
    let end = match read_fields(tokens, 2, &mut fields) {
        Some(end) => end,
        None => {
            return None;
        },
    };
    proof {
        let (read, _) = fields_from(token_views(tokens@), 2)->0;
        assert(field_views(Seq::<FieldDeclaration>::empty()) + read =~= read);
    }
    let mut options: Vec<(String, bool)> = Vec::new();
    if end == tokens.len() {
        let declaration = IndexDeclaration { keyword, fields, options };
        assert(declaration@.options =~= Seq::empty());
        return Some(declaration);
    }
    if !is_semicolon(tokens, end) {
        return None;
    }
    let last = match read_options(tokens, end + 1, &mut options) {
        Some(last) => last,
        None => {
            return None;
        },
    };
    proof {
        let (read, _) = options_from(token_views(tokens@), end + 1)->0;
        assert(option_views(Seq::<(String, bool)>::empty()) + read =~= read);
    }
    if last != tokens.len() {
        return None;
    }
    Some(IndexDeclaration { keyword, fields, options })
}

/// The declaration that `text` states, where it states one.
pub fn parse(text: &str) -> (r: Option<IndexDeclaration>)
    ensures
        match r {
            Some(declaration) => parsed(vstd::utf8::encode_utf8(text@)) == Some(declaration@),
            None => parsed(vstd::utf8::encode_utf8(text@)) is None,
        },
{
    match tokenize(text.as_bytes()) {
        Some(tokens) => parse_tokens(&tokens),
        None => None,
    }
}

/// What the declarations of a collection state: the fields of its
/// primary key, and the fields of each secondary index with whether the
/// index is unique.
#[derive(Debug)]
pub struct Declared {
    pub primary_key: Option<Vec<FieldDeclaration>>,
    pub indices: Vec<(Vec<FieldDeclaration>, bool)>,
}

/// What the declarations of a collection state, as contracts see it.
pub struct DeclaredView {
    pub primary_key: Option<Seq<FieldView>>,
    pub indices: Seq<(Seq<FieldView>, bool)>,
}

/// The views of a list of declared indexes.
pub open spec fn index_views(
    indices: Seq<(Vec<FieldDeclaration>, bool)>,
) -> Seq<(Seq<FieldView>, bool)> {
    Seq::new(indices.len(), |i: int| (field_views(indices[i].0@), indices[i].1))
}

impl View for Declared {
    type V = DeclaredView;

    open spec fn view(&self) -> DeclaredView {
        DeclaredView {
            primary_key: match self.primary_key {
                Some(fields) => Some(field_views(fields@)),
                None => None,
            },
            indices: index_views(self.indices@),
        }
    }
}

/// Whether the first `upto` options make an index unique. An index is
/// unique where its last option says so; it has no other option than
/// `unique`.
pub open spec fn uniqueness(options: Seq<(Seq<char>, bool)>, upto: int) -> Option<bool>
    decreases upto,
{
    if upto <= 0 {
        Some(false)
    } else {
        match uniqueness(options, upto - 1) {
            None => None,
            Some(_) => if options[upto - 1].0 == "unique"@ {
                Some(options[upto - 1].1)
            } else {
                None
            },
        }
    }
}

/// What one more declaration makes of what is stated so far. A primary
/// key is declared once and without options; an index is declared with
/// the keyword `index`; no other keyword is known.
pub open spec fn stated(
    so_far: DeclaredView,
    declaration: DeclarationView,
) -> Option<DeclaredView> {
    if declaration.keyword == "primary_key"@ {
        if so_far.primary_key is None && declaration.options.len() == 0 {
            Some(DeclaredView { primary_key: Some(declaration.fields), indices: so_far.indices })
        } else {
            None
        }
    } else if declaration.keyword == "index"@ {
        match uniqueness(declaration.options, declaration.options.len() as int) {
            Some(unique) => Some(
                DeclaredView {
                    primary_key: so_far.primary_key,
                    indices: so_far.indices.push((declaration.fields, unique)),
                },
            ),
            None => None,
        }
    } else {
        None
    }
}

/// What the first `upto` of `texts` state, where each states a declaration
/// and the declarations go together.
pub open spec fn gathered(texts: Seq<String>, upto: int) -> Option<DeclaredView>
    decreases upto,
{
    if upto <= 0 {
        Some(DeclaredView { primary_key: None, indices: Seq::empty() })
    } else {
        match gathered(texts, upto - 1) {
            None => None,
            Some(so_far) => match parsed(vstd::utf8::encode_utf8(texts[upto - 1]@)) {
                None => None,
                Some(declaration) => stated(so_far, declaration),
            },
        }
    }
}

/// Where the first declarations do not go together, no more declarations
/// mend them.
pub proof fn lemma_gathered_fails(texts: Seq<String>, i: int, j: int)
    requires
        0 <= i <= j,
        gathered(texts, i) is None,
    ensures
        gathered(texts, j) is None,
    decreases j - i,
{
    if i < j {
        lemma_gathered_fails(texts, i, j - 1);
    }
}

/// Whether the options make an index unique.
fn read_uniqueness(options: &Vec<(String, bool)>) -> (r: Option<bool>)
    ensures
        r == uniqueness(option_views(options@), options@.len() as int),
{
    let mut unique = false;
    let mut i: usize = 0;
    while i < options.len()
        invariant
            i <= options.len(),
            uniqueness(option_views(options@), i as int) == Some(unique),
        decreases options.len() - i,
    {
        if !str_eq(options[i].0.as_str(), "unique") {
            proof {
                lemma_uniqueness_fails(option_views(options@), i + 1, options@.len() as int);
            }
            return None;
        }
        unique = options[i].1;
        i += 1;
    }
    Some(unique)
}

proof fn lemma_uniqueness_fails(options: Seq<(Seq<char>, bool)>, i: int, j: int)
    requires
        0 <= i <= j,
        uniqueness(options, i) is None,
    ensures
        uniqueness(options, j) is None,
    decreases j - i,
{
    if i < j {
        lemma_uniqueness_fails(options, i, j - 1);
    }
}

/// What the declarations `texts` of a collection state.
///
/// The declarations are refused where one of them is not a declaration,
/// has a keyword other than `primary_key` and `index`, or has an option
/// that it may not have; where the primary key is declared twice; and
/// where it is not declared.
pub fn gather(texts: &Vec<String>) -> (r: Result<Declared, DbError>)
    ensures
        match r {
            Ok(declared) => gathered(texts@, texts@.len() as int) == Some(declared@)
                && declared.primary_key is Some,
            Err(e) => e is InvalidSchema && !(gathered(texts@, texts@.len() as int) matches Some(g)
                && g.primary_key is Some),
        },
{
    let mut declared = Declared { primary_key: None, indices: Vec::new() };
    let mut i: usize = 0;
    assert(declared@.indices =~= Seq::empty());
    while i < texts.len()
        invariant
            i <= texts.len(),
            gathered(texts@, i as int) == Some(declared@),
        decreases texts.len() - i,
    {
        let ghost so_far = declared@;
        let declaration = match parse(texts[i].as_str()) {
            Some(declaration) => declaration,
            None => {
                proof {
                    lemma_gathered_fails(texts@, i + 1, texts@.len() as int);
                }
                return Err(DbError::InvalidSchema);
            },
        };
        let ghost view = declaration@;
        let IndexDeclaration { keyword, fields, options } = declaration;
        if str_eq(keyword.as_str(), "primary_key") {
            if declared.primary_key.is_some() || options.len() != 0 {
                proof {
                    lemma_gathered_fails(texts@, i + 1, texts@.len() as int);
                }
                return Err(DbError::InvalidSchema);
            }
            declared.primary_key = Some(fields);
        } else if str_eq(keyword.as_str(), "index") {
            let unique = match read_uniqueness(&options) {
                Some(unique) => unique,
                None => {
                    proof {
                        lemma_gathered_fails(texts@, i + 1, texts@.len() as int);
                    }
                    return Err(DbError::InvalidSchema);
                },
            };
            declared.indices.push((fields, unique));
            assert(declared@.indices =~= so_far.indices.push((view.fields, unique)));
        } else {
            proof {
                lemma_gathered_fails(texts@, i + 1, texts@.len() as int);
            }
            return Err(DbError::InvalidSchema);
        }
        i += 1;
    }
    if declared.primary_key.is_none() {
        return Err(DbError::InvalidSchema);
    }
    Ok(declared)
}

/// What is known of a field of the documents of a collection: its name,
/// what the codec says of its type, and the name of its type.
#[derive(Debug)]
pub struct FieldType {
    pub name: String,
    pub stats: LexStats,
    pub kind: String,
}

/// What the codec says of the type of the first field named `name`, from
/// position `from` on.
pub open spec fn stats_from(types: Seq<FieldType>, name: Seq<char>, from: int) -> Option<LexStats>
    decreases types.len() - from,
{
    if from < 0 || from >= types.len() {
        None
    } else if types[from].name@ == name {
        Some(types[from].stats)
    } else {
        stats_from(types, name, from + 1)
    }
}

/// What the codec says of the type of the field named `name`.
fn stats_of(types: &Vec<FieldType>, name: &str) -> (r: Option<LexStats>)
    ensures
        r == stats_from(types@, name@, 0),
{
    let mut i: usize = 0;
    while i < types.len()
        invariant
            i <= types.len(),
            stats_from(types@, name@, 0) == stats_from(types@, name@, i as int),
        decreases types.len() - i,
    {
        if str_eq(types[i].name.as_str(), name) {
            return Some(types[i].stats);
        }
        i += 1;
    }
    None
}

/// Whether `resolved` are the declared fields `fields`, each with what the
/// codec says of its type.
pub open spec fn resolves(
    types: Seq<FieldType>,
    fields: Seq<FieldView>,
    resolved: Seq<IndexField>,
) -> bool {
    &&& resolved.len() == fields.len()
    &&& forall|i: int|
        0 <= i < fields.len() ==> (#[trigger] resolved[i]).name@ == fields[i].name && stats_from(
            types,
            fields[i].name,
            0,
        ) == Some(resolved[i].stats)
}

/// Whether every one of `fields` is a field of the documents.
pub open spec fn all_known(types: Seq<FieldType>, fields: Seq<FieldView>) -> bool {
    forall|i: int| 0 <= i < fields.len() ==> stats_from(types, (#[trigger] fields[i]).name, 0) is Some
}

/// The declared fields, each with what the codec says of its type. A
/// field that the documents lack is refused.
pub fn resolve(types: &Vec<FieldType>, fields: &Vec<FieldDeclaration>) -> (r: Result<
    Vec<IndexField>,
    DbError,
>)
    ensures
        match r {
            Ok(resolved) => resolves(types@, field_views(fields@), resolved@),
            Err(e) => e is InvalidSchema && !all_known(types@, field_views(fields@)),
        },
{
    let mut resolved: Vec<IndexField> = Vec::new();
    let mut i: usize = 0;
    while i < fields.len()
        invariant
            i <= fields.len(),
            resolved@.len() == i,
            forall|j: int|
                0 <= j < i ==> (#[trigger] resolved@[j]).name@ == field_views(fields@)[j].name
                    && stats_from(types@, field_views(fields@)[j].name, 0) == Some(
                    resolved@[j].stats,
                ),
        decreases fields.len() - i,
    {
        match stats_of(types, fields[i].name.as_str()) {
            Some(stats) => {
                resolved.push(IndexField { name: fields[i].name.clone(), stats });
            },
            None => {
                assert(stats_from(types@, field_views(fields@)[i as int].name, 0) is None);
                return Err(DbError::InvalidSchema);
            },
        }
        i += 1;
    }
    Ok(resolved)
}

/// Whether the declarations `texts` can be made of documents with the
/// fields `types`: they go together, they declare a primary key, and every
/// field that they name is a field of the documents.
pub open spec fn declarable(texts: Seq<String>, types: Seq<FieldType>) -> bool {
    &&& gathered(texts, texts.len() as int) matches Some(g) && g.primary_key is Some && all_known(
        types,
        g.primary_key->0,
    ) && forall|i: int| 0 <= i < g.indices.len() ==> all_known(types, (#[trigger] g.indices[i]).0)
}

/// The declaration of the collection `name` that the declarations `texts`
/// state of documents with the fields `types`.
pub fn declare(name: &str, texts: &Vec<String>, types: &Vec<FieldType>) -> (r: Result<
    CollectionDef,
    DbError,
>)
    ensures
        match r {
            Ok(def) => {
                &&& def.name@ == name@
                &&& gathered(texts@, texts@.len() as int) matches Some(g) && g.primary_key is Some
                    && resolves(types@, g.primary_key->0, def.primary_key@) && def.indices@.len()
                    == g.indices.len() && (forall|i: int|
                    0 <= i < g.indices.len() ==> resolves(
                        types@,
                        g.indices[i].0,
                        (#[trigger] def.indices@[i]).fields@,
                    ) && def.indices@[i].options == (IndexOptions {
                        unique: g.indices[i].1,
                        primary: false,
                    }))
                &&& def.fields@.len() == types@.len()
                &&& forall|i: int|
                    0 <= i < types@.len() ==> (#[trigger] def.fields@[i]).0@ == types@[i].name@
                        && def.fields@[i].1@ == types@[i].kind@
            },
            Err(e) => e is InvalidSchema && !declarable(texts@, types@),
        },
{
    let declared = gather(texts)?;
    let ghost stated = declared@;
    let Declared { primary_key, indices } = declared;
    let primary_key = match primary_key {
        Some(fields) => resolve(types, &fields)?,
        None => {
            return Err(DbError::InvalidSchema);
        },
    };
    let mut defs: Vec<IndexDef> = Vec::new();
    let mut i: usize = 0;
    while i < indices.len()
        invariant
            i <= indices.len(),
            stated.indices == index_views(indices@),
            gathered(texts@, texts@.len() as int) == Some(stated),
            defs@.len() == i,
            forall|j: int|
                0 <= j < i ==> resolves(types@, stated.indices[j].0, (#[trigger] defs@[j]).fields@)
                    && defs@[j].options == (IndexOptions {
                    unique: stated.indices[j].1,
                    primary: false,
                }),
        decreases indices.len() - i,
    {
        let fields = match resolve(types, &indices[i].0) {
            Ok(fields) => fields,
            Err(error) => {
                assert(!all_known(types@, stated.indices[i as int].0));
                return Err(error);
            },
        };
        defs.push(IndexDef { fields, options: IndexOptions { unique: indices[i].1, primary: false } });
        i += 1;
    }
    let mut fields: Vec<(String, String)> = Vec::new();
    let mut k: usize = 0;
    while k < types.len()
        invariant
            k <= types.len(),
            fields@.len() == k,
            forall|j: int|
                0 <= j < k ==> (#[trigger] fields@[j]).0@ == types@[j].name@ && fields@[j].1@
                    == types@[j].kind@,
        decreases types.len() - k,
    {
        fields.push((types[k].name.clone(), types[k].kind.clone()));
        k += 1;
    }
    Ok(CollectionDef { name: name.to_owned(), primary_key, indices: defs, fields })
}

/// Whether `bytes` spell a name.
pub open spec fn is_name(bytes: Seq<u8>) -> bool {
    &&& bytes.len() > 0
    &&& starts_name(bytes[0])
    &&& forall|i: int| 0 <= i < bytes.len() ==> continues_name(#[trigger] bytes[i])
}

/// The bytes that spell a token.
pub open spec fn spelled(token: TokenView) -> Seq<u8> {
    match token {
        TokenView::Ident(name) => name,
        TokenView::Equals => seq![0x3du8],
        TokenView::Comma => seq![0x2cu8],
        TokenView::Semicolon => seq![0x3bu8],
        TokenView::Minus => seq![0x2du8],
    }
}

/// The text of tokens: each token spelled out, with a space behind it.
pub open spec fn written(tokens: Seq<TokenView>) -> Seq<u8>
    decreases tokens.len(),
{
    if tokens.len() == 0 {
        Seq::empty()
    } else {
        spelled(tokens[0]) + seq![0x20u8] + written(tokens.skip(1))
    }
}

/// Whether every name among the tokens spells a name.
pub open spec fn names_are_spelled(tokens: Seq<TokenView>) -> bool {
    forall|i: int| 0 <= i < tokens.len() && (#[trigger] tokens[i]) is Ident ==> is_name(tokens[i]->Ident_0)
}

proof fn lemma_name_length_of_name(name: Seq<u8>, rest: Seq<u8>, upto: int)
    requires
        0 <= upto <= name.len(),
        forall|i: int| 0 <= i < name.len() ==> continues_name(#[trigger] name[i]),
        rest.len() > 0 && !continues_name(rest[0]),
    ensures
        name_length((name + rest).skip(upto)) == name.len() - upto,
    decreases name.len() - upto,
{
    let text = (name + rest).skip(upto);
    if upto < name.len() {
        assert(text[0] == name[upto]);
        assert(text.skip(1) =~= (name + rest).skip(upto + 1));
        lemma_name_length_of_name(name, rest, upto + 1);
    } else {
        assert(text[0] == rest[0]);
    }
}

/// What is written is read back: the tokens of the text of tokens are
/// those tokens.
pub proof fn lemma_lex_written(tokens: Seq<TokenView>)
    requires
        names_are_spelled(tokens),
    ensures
        lex(written(tokens)) == Some(tokens),
    decreases tokens.len(),
{
    if tokens.len() > 0 {
        let first = tokens[0];
        let rest = tokens.skip(1);
        let text = written(tokens);
        let tail = seq![0x20u8] + written(rest);
        assert forall|i: int| 0 <= i < rest.len() && (#[trigger] rest[i]) is Ident implies is_name(
            rest[i]->Ident_0,
        ) by {
            assert(rest[i] == tokens[i + 1]);
        }
        lemma_lex_written(rest);
        assert(text =~= spelled(first) + tail);
        assert(tail[0] == 0x20u8);
        assert(tail.skip(1) =~= written(rest));
        assert(lex(tail) == Some(rest));
        assert(seq![first] + rest =~= tokens);
        match first {
            TokenView::Ident(name) => {
                assert(is_name(tokens[0]->Ident_0));
                assert(text[0] == name[0]);
                lemma_name_length_of_name(name, tail, 0);
                assert((name + tail).skip(0) =~= text);
                assert(name_length(text) == name.len());
                assert(text.take(name.len() as int) =~= name);
                assert(text.skip(name.len() as int) =~= tail);
                assert(symbol(text[0]) is None);
                assert(!is_blank(text[0]));
            },
            TokenView::Equals => {
                assert(text[0] == 0x3du8);
                assert(text.skip(1) =~= tail);
            },
            TokenView::Comma => {
                assert(text[0] == 0x2cu8);
                assert(text.skip(1) =~= tail);
            },
            TokenView::Semicolon => {
                assert(text[0] == 0x3bu8);
                assert(text.skip(1) =~= tail);
            },
            TokenView::Minus => {
                assert(text[0] == 0x2du8);
                assert(text.skip(1) =~= tail);
            },
        }
    }
}

/// The tokens of a field.
pub open spec fn tokens_of_field(field: FieldView) -> Seq<TokenView> {
    if field.descending {
        seq![TokenView::Minus, TokenView::Ident(vstd::utf8::encode_utf8(field.name))]
    } else {
        seq![TokenView::Ident(vstd::utf8::encode_utf8(field.name))]
    }
}

/// The tokens of fields, separated by commas.
pub open spec fn tokens_of_fields(fields: Seq<FieldView>) -> Seq<TokenView>
    decreases fields.len(),
{
    if fields.len() == 0 {
        Seq::empty()
    } else if fields.len() == 1 {
        tokens_of_field(fields[0])
    } else {
        tokens_of_field(fields[0]) + seq![TokenView::Comma] + tokens_of_fields(fields.skip(1))
    }
}

/// The tokens of an option.
pub open spec fn tokens_of_option(option: (Seq<char>, bool)) -> Seq<TokenView> {
    seq![
        TokenView::Ident(vstd::utf8::encode_utf8(option.0)),
        TokenView::Equals,
        TokenView::Ident(
            if option.1 {
                true_bytes()
            } else {
                false_bytes()
            },
        ),
    ]
}

/// The tokens of options, separated by commas.
pub open spec fn tokens_of_options(options: Seq<(Seq<char>, bool)>) -> Seq<TokenView>
    decreases options.len(),
{
    if options.len() == 0 {
        Seq::empty()
    } else if options.len() == 1 {
        tokens_of_option(options[0])
    } else {
        tokens_of_option(options[0]) + seq![TokenView::Comma] + tokens_of_options(options.skip(1))
    }
}

/// The tokens of a declaration.
pub open spec fn tokens_of(declaration: DeclarationView) -> Seq<TokenView> {
    seq![TokenView::Ident(vstd::utf8::encode_utf8(declaration.keyword)), TokenView::Equals]
        + tokens_of_fields(declaration.fields) + if declaration.options.len() == 0 {
        Seq::empty()
    } else {
        seq![TokenView::Semicolon] + tokens_of_options(declaration.options)
    }
}

/// The fields that are written between other tokens are read back, where
/// no comma follows them.
proof fn lemma_fields_read_back(front: Seq<TokenView>, fields: Seq<FieldView>, back: Seq<TokenView>)
    requires
        fields.len() > 0,
        back.len() == 0 || !(back[0] is Comma),
    ensures
        fields_from(front + tokens_of_fields(fields) + back, front.len() as int) == Some(
            (fields, (front.len() + tokens_of_fields(fields).len()) as int),
        ),
    decreases fields.len(),
{
    broadcast use vstd::utf8::encode_utf8_valid_utf8;
    broadcast use vstd::utf8::encode_utf8_decode_utf8;

    let tokens = front + tokens_of_fields(fields) + back;
    let pos = front.len() as int;
    let first = tokens_of_field(fields[0]);
    let next = pos + first.len();
    assert(forall|i: int| 0 <= i < first.len() ==> tokens[pos + i] == first[i]) by {
        assert forall|i: int| 0 <= i < first.len() implies tokens[pos + i] == first[i] by {
            assert(tokens_of_fields(fields)[i] == first[i]);
        }
    }
    assert(tokens[pos] == first[0]);
    if fields[0].descending {
        assert(tokens[pos + 1] == first[1]);
    }
    assert(field_at(tokens, pos) == Some((fields[0], next)));
    if fields.len() == 1 {
        if back.len() > 0 {
            assert(tokens[next] == back[0]);
        }
        assert(seq![fields[0]] =~= fields);
    } else {
        let rest = fields.skip(1);
        let longer = front + first + seq![TokenView::Comma];
        assert(tokens =~= longer + tokens_of_fields(rest) + back);
        assert(tokens[next] is Comma);
        lemma_fields_read_back(longer, rest, back);
        assert(seq![fields[0]] + rest =~= fields);
    }
}

/// The options that are written behind other tokens are read back.
proof fn lemma_options_read_back(front: Seq<TokenView>, options: Seq<(Seq<char>, bool)>)
    requires
        options.len() > 0,
    ensures
        options_from(front + tokens_of_options(options), front.len() as int) == Some(
            (options, (front.len() + tokens_of_options(options).len()) as int),
        ),
    decreases options.len(),
{
    broadcast use vstd::utf8::encode_utf8_valid_utf8;
    broadcast use vstd::utf8::encode_utf8_decode_utf8;

    let tokens = front + tokens_of_options(options);
    let pos = front.len() as int;
    let first = tokens_of_option(options[0]);
    let next = pos + 3;
    assert forall|i: int| 0 <= i < 3 implies tokens[pos + i] == first[i] by {
        assert(tokens_of_options(options)[i] == first[i]);
    }
    assert(tokens[pos] == first[0]);
    assert(tokens[pos + 1] == first[1]);
    assert(tokens[pos + 2] == first[2]);
    assert(true_bytes() != false_bytes()) by {
        assert(true_bytes().len() != false_bytes().len());
    }
    assert(option_at(tokens, pos) == Some((options[0], next)));
    if options.len() == 1 {
        assert(seq![options[0]] =~= options);
    } else {
        let rest = options.skip(1);
        let longer = front + first + seq![TokenView::Comma];
        assert(tokens =~= longer + tokens_of_options(rest));
        assert(tokens[next] is Comma);
        lemma_options_read_back(longer, rest);
        assert(seq![options[0]] + rest =~= options);
    }
}

/// What is written is read back: the declaration that the tokens of a
/// declaration with a field are is that declaration.
pub proof fn lemma_declaration_of_tokens(declaration: DeclarationView)
    requires
        declaration.fields.len() > 0,
    ensures
        declaration_of(tokens_of(declaration)) == Some(declaration),
{
    broadcast use vstd::utf8::encode_utf8_valid_utf8;
    broadcast use vstd::utf8::encode_utf8_decode_utf8;

    let tokens = tokens_of(declaration);
    let front = seq![
        TokenView::Ident(vstd::utf8::encode_utf8(declaration.keyword)),
        TokenView::Equals,
    ];
    let fields = tokens_of_fields(declaration.fields);
    let end = 2 + fields.len() as int;
    assert(tokens[0] == front[0]);
    assert(tokens[1] == front[1]);
    assert(name_at(tokens, 0) == Some(declaration.keyword));
    if declaration.options.len() == 0 {
        let back = Seq::<TokenView>::empty();
        assert(tokens =~= front + fields + back);
        lemma_fields_read_back(front, declaration.fields, back);
        assert(fields_from(tokens, 2) == Some((declaration.fields, end)));
        assert(end == tokens.len());
        assert(declaration.options =~= Seq::empty());
    } else {
        let options = tokens_of_options(declaration.options);
        let back = seq![TokenView::Semicolon] + options;
        assert(tokens =~= front + fields + back);
        lemma_fields_read_back(front, declaration.fields, back);
        assert(fields_from(tokens, 2) == Some((declaration.fields, end)));
        assert(tokens[end] == back[0]);
        let longer = front + fields + seq![TokenView::Semicolon];
        assert(tokens =~= longer + options);
        assert(longer.len() == end + 1);
        lemma_options_read_back(longer, declaration.options);
        assert(options_from(tokens, end + 1) == Some(
            (declaration.options, (longer.len() + options.len()) as int),
        ));
        assert(tokens.len() == longer.len() + options.len());
    }
}

/// Every declaration can be stated: the text of the tokens of a
/// declaration with a field, of which the keyword and the names of the
/// fields and of the options spell names, states that declaration.
pub proof fn lemma_parsed_written(declaration: DeclarationView)
    requires
        declaration.fields.len() > 0,
        names_are_spelled(tokens_of(declaration)),
    ensures
        parsed(written(tokens_of(declaration))) == Some(declaration),
{
    lemma_lex_written(tokens_of(declaration));
    lemma_declaration_of_tokens(declaration);
}

} // verus!
