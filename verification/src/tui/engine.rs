//! The highlighting engine: what the library takes from `syntect`.
use crate::text::ascii_lowered;
use crate::tui::theme_dates::has_plain_dates;
use std::io::Cursor;
use syntect::easy::HighlightLines;
use syntect::highlighting::{FontStyle, Theme, ThemeSet};
use syntect::parsing::{SyntaxReference, SyntaxSet};
use vstd::prelude::*;

verus! {

// ---------- syntaxes ----------

/// A set of syntax definitions.
#[verifier::external_type_specification]
#[verifier::external_body]
pub struct ExSyntaxSet(syntect::parsing::SyntaxSet);

/// One syntax of a set.
#[verifier::external_type_specification]
#[verifier::external_body]
pub struct ExSyntaxReference(syntect::parsing::SyntaxReference);

/// The syntaxes that a set holds, in order: of each its name and its file
/// extensions.
pub uninterp spec fn syntaxes_in(set: SyntaxSet) -> Seq<(Seq<char>, Seq<Seq<char>>)>;

/// The syntax at a position of a set.
pub uninterp spec fn syntax_at(set: SyntaxSet, index: int) -> SyntaxReference;

/// One of the extensions is the token, capitals or not.
pub open spec fn has_extension(syntax: (Seq<char>, Seq<Seq<char>>), token: Seq<char>) -> bool {
    exists|i: int|
        0 <= i < syntax.1.len() && ascii_lowered(#[trigger] syntax.1[i]) == ascii_lowered(token)
}

/// The last syntax that has the token as an extension, or -1.
pub open spec fn last_with_extension(
    syntaxes: Seq<(Seq<char>, Seq<Seq<char>>)>,
    token: Seq<char>,
) -> int
    decreases syntaxes.len(),
{
    if syntaxes.len() == 0 {
        -1
    } else if has_extension(syntaxes.last(), token) {
        syntaxes.len() - 1
    } else {
        last_with_extension(syntaxes.drop_last(), token)
    }
}

/// The last syntax whose name is the token, capitals or not, or -1.
pub open spec fn last_with_name_like(
    syntaxes: Seq<(Seq<char>, Seq<Seq<char>>)>,
    token: Seq<char>,
) -> int
    decreases syntaxes.len(),
{
    if syntaxes.len() == 0 {
        -1
    } else if ascii_lowered(syntaxes.last().0) == ascii_lowered(token) {
        syntaxes.len() - 1
    } else {
        last_with_name_like(syntaxes.drop_last(), token)
    }
}

/// The syntax that a token stands for: by extension, else by name, else -1.
pub open spec fn token_index(syntaxes: Seq<(Seq<char>, Seq<Seq<char>>)>, token: Seq<char>) -> int {
    let by_extension = last_with_extension(syntaxes, token);
    if by_extension >= 0 {
        by_extension
    } else {
        last_with_name_like(syntaxes, token)
    }
}

/// The last syntax of exactly this name, or -1.
pub open spec fn last_with_name(
    syntaxes: Seq<(Seq<char>, Seq<Seq<char>>)>,
    name: Seq<char>,
) -> int
    decreases syntaxes.len(),
{
    if syntaxes.len() == 0 {
        -1
    } else if syntaxes.last().0 == name {
        syntaxes.len() - 1
    } else {
        last_with_name(syntaxes.drop_last(), name)
    }
}

/// The syntax for plain text, or -1.
pub open spec fn plain_text_index(syntaxes: Seq<(Seq<char>, Seq<Seq<char>>)>) -> int {
    last_with_name(syntaxes, "Plain Text"@)
}

/// `SyntaxSet::load_defaults_newlines`: the syntaxes that come with `syntect`,
/// for lines that keep their line ending. One for plain text is among them;
/// which others are is left unsaid.
#[verifier::external_body]
pub(crate) fn load_default_syntaxes() -> (r: SyntaxSet)
    ensures
        plain_text_index(syntaxes_in(r)) >= 0,
{
    SyntaxSet::load_defaults_newlines()
}

/// `SyntaxSet::find_syntax_by_token`: the last syntax of the set that has the
/// token as a file extension, or else the last whose name is the token, ASCII
/// capitals or not in both.
#[verifier::external_body]
pub(crate) fn find_syntax_by_token<'a>(set: &'a SyntaxSet, token: &str) -> (r: Option<
    &'a SyntaxReference,
>)
    ensures
        r is Some <==> token_index(syntaxes_in(*set), token@) >= 0,
        r matches Some(syntax) ==> *syntax == syntax_at(
            *set,
            token_index(syntaxes_in(*set), token@),
        ),
{
    set.find_syntax_by_token(token)
}

/// `SyntaxSet::find_syntax_plain_text`: the last syntax of the set whose name is
/// `Plain Text`. There must be one.
#[verifier::external_body]
pub(crate) fn find_plain_text_syntax(set: &SyntaxSet) -> (r: &SyntaxReference)
    requires
        plain_text_index(syntaxes_in(*set)) >= 0,
    ensures
        *r == syntax_at(*set, plain_text_index(syntaxes_in(*set))),
{
    set.find_syntax_plain_text()
}

// ---------- themes ----------

/// Colors for code.
#[verifier::external_type_specification]
#[verifier::external_body]
pub struct ExTheme(syntect::highlighting::Theme);

/// Themes by name.
#[verifier::external_type_specification]
#[verifier::external_body]
pub struct ExThemeSet(syntect::highlighting::ThemeSet);

/// The themes that a set holds, by name.
pub uninterp spec fn themes_in(set: ThemeSet) -> Map<Seq<char>, Theme>;

/// The theme of this name among those that come with `syntect`, if there is one.
pub uninterp spec fn builtin_theme(name: Seq<char>) -> Option<Theme>;

/// What `ThemeSet::load_from_reader` makes of a `.tmTheme` file with this
/// content: the theme that it describes, or the message of the error.
pub uninterp spec fn parsed_theme(content: Seq<u8>) -> Result<Theme, Seq<char>>;

/// The background color of a theme, if it sets one, as red, green and blue.
pub uninterp spec fn background_of(theme: Theme) -> Option<(u8, u8, u8)>;

/// The theme of this name, if there is one.
pub open spec fn theme_in(themes: Map<Seq<char>, Theme>, name: Seq<char>) -> Option<Theme> {
    if themes.dom().contains(name) {
        Some(themes[name])
    } else {
        None
    }
}

/// `ThemeSet::load_defaults`: the themes that come with `syntect`. Its
/// documentation lists seven names; they are in the set.
#[verifier::external_body]
pub(crate) fn load_default_themes() -> (r: ThemeSet)
    ensures
        forall|name: Seq<char>| #[trigger]
            theme_in(themes_in(r), name) == builtin_theme(name),
        themes_in(r).dom().contains("base16-ocean.dark"@),
        themes_in(r).dom().contains("base16-eighties.dark"@),
        themes_in(r).dom().contains("base16-mocha.dark"@),
        themes_in(r).dom().contains("base16-ocean.light"@),
        themes_in(r).dom().contains("InspiredGitHub"@),
        themes_in(r).dom().contains("Solarized (dark)"@),
        themes_in(r).dom().contains("Solarized (light)"@),
{
    ThemeSet::load_defaults()
}

/// `BTreeMap::get` on the themes of a set, with the theme cloned: the theme of
/// this name, if there is one.
#[verifier::external_body]
pub(crate) fn get_theme(set: &ThemeSet, name: &str) -> (r: Option<Theme>)
    ensures
        r == theme_in(themes_in(*set), name@),
{
    set.themes.get(name).cloned()
}

/// `BTreeMap::insert` on the themes of a set: adds the theme, in place of one of
/// the same name.
#[verifier::external_body]
pub(crate) fn insert_theme(set: &mut ThemeSet, name: String, theme: Theme)
    ensures
        themes_in(*final(set)) == themes_in(*old(set)).insert(name@, theme),
{
    set.themes.insert(name, theme);
}

/// `ThemeSet::load_from_reader` on the content of a `.tmTheme` file: the theme,
/// or the text of the error that says why it is none. Both depend on the content
/// alone; what they are for a given content is left unsaid. The dates of the
/// content must be plain: the loader panics on some others.
#[verifier::external_body]
pub(crate) fn parse_theme(content: &[u8]) -> (r: Result<Theme, String>)
    requires
        has_plain_dates(content@),
    ensures
        match r {
            Ok(theme) => parsed_theme(content@) == Ok::<Theme, Seq<char>>(theme),
            Err(message) => parsed_theme(content@) == Err::<Theme, Seq<char>>(message@),
        },
{
    ThemeSet::load_from_reader(&mut Cursor::new(content)).map_err(|e| e.to_string())
}

/// The background color in the settings of a theme.
#[verifier::external_body]
pub(crate) fn theme_background(theme: &Theme) -> (r: Option<(u8, u8, u8)>)
    ensures
        r == background_of(*theme),
{
    theme.settings.background.map(|c| (c.r, c.g, c.b))
}

// ---------- highlighting ----------

/// A highlighter that goes through a text line by line.
#[verifier::external_type_specification]
#[verifier::external_body]
pub struct ExHighlightLines<'a>(syntect::easy::HighlightLines<'a>);

/// The style of a piece of code: its color and its font.
#[derive(Debug, Clone, Copy, PartialEq, Eq, Structural)]
pub struct TokenStyle {
    pub red: u8,
    pub green: u8,
    pub blue: u8,
    pub bold: bool,
    pub italic: bool,
    pub underline: bool,
}

/// A highlighter at the start of a text.
pub uninterp spec fn line_highlighter(syntax: SyntaxReference, theme: Theme) -> HighlightLines<
    'static,
>;

/// What a highlighter makes of its next line: the pieces of the line with their
/// styles, or nothing where the line cannot be parsed; and the highlighter
/// after it.
pub uninterp spec fn highlight_step(
    highlighter: HighlightLines<'_>,
    line: Seq<char>,
    set: SyntaxSet,
) -> (Option<Seq<(TokenStyle, Seq<char>)>>, HighlightLines<'_>);

/// The models of pieces.
pub open spec fn piece_models(pieces: Seq<(TokenStyle, String)>) -> Seq<(TokenStyle, Seq<char>)> {
    pieces.map_values(|p: (TokenStyle, String)| (p.0, p.1@))
}

/// The text of pieces, put together.
pub open spec fn piece_text(pieces: Seq<(TokenStyle, Seq<char>)>) -> Seq<char>
    decreases pieces.len(),
{
    if pieces.len() == 0 {
        Seq::empty()
    } else {
        piece_text(pieces.drop_last()) + pieces.last().1
    }
}

/// A highlighter after the given lines.
pub open spec fn highlighter_after(
    start: HighlightLines<'static>,
    lines: Seq<Seq<char>>,
    set: SyntaxSet,
) -> HighlightLines<'static>
    decreases lines.len(),
{
    if lines.len() == 0 {
        start
    } else {
        highlight_step(highlighter_after(start, lines.drop_last(), set), lines.last(), set).1
    }
}

/// A highlighter that was made for a syntax of this set, and has been given
/// lines with this set alone.
pub open spec fn is_made_for(highlighter: HighlightLines<'_>, set: SyntaxSet) -> bool {
    exists|index: int, theme: Theme, lines: Seq<Seq<char>>|
        0 <= index < syntaxes_in(set).len() && highlighter == #[trigger] highlighter_after(
            line_highlighter(syntax_at(set, index), theme),
            lines,
            set,
        )
}

/// `HighlightLines::new`: a highlighter for a syntax of some set and a theme.
#[verifier::external_body]
pub(crate) fn start_highlighter<'a>(syntax: &SyntaxReference, theme: &'a Theme) -> (r:
    HighlightLines<'a>)
    requires
        exists|set: SyntaxSet, index: int|
            0 <= index < syntaxes_in(set).len() && *syntax == #[trigger] syntax_at(set, index),
    ensures
        r == line_highlighter(*syntax, *theme),
{
    HighlightLines::new(syntax, theme)
}

/// `HighlightLines::highlight_line`: the pieces of the next line with their
/// styles, or nothing where parsing failed. Pieces are never empty, and together
/// they are the line or a first part of it. The set must be the one that the
/// highlighter was made for.
#[verifier::external_body]
pub(crate) fn highlight_line(
    highlighter: &mut HighlightLines<'_>,
    line: &str,
    set: &SyntaxSet,
) -> (r: Option<Vec<(TokenStyle, String)>>)
    requires
        is_made_for(*old(highlighter), *set),
    ensures
        r is Some <==> highlight_step(*old(highlighter), line@, *set).0 is Some,
        r matches Some(pieces) ==> Some(piece_models(pieces@)) == highlight_step(
            *old(highlighter),
            line@,
            *set,
        ).0,
        *final(highlighter) == highlight_step(*old(highlighter), line@, *set).1,
        r matches Some(pieces) ==> piece_text(piece_models(pieces@)).is_prefix_of(line@),
        r matches Some(pieces) ==> forall|i: int|
            0 <= i < pieces@.len() ==> (#[trigger] pieces@[i]).1@.len() > 0,
{
    let pieces = highlighter.highlight_line(line, set).ok()?;
    let convert = |(style, text): (syntect::highlighting::Style, &str)| {
        let token_style = TokenStyle {
            red: style.foreground.r,
            green: style.foreground.g,
            blue: style.foreground.b,
            bold: style.font_style.contains(FontStyle::BOLD),
            italic: style.font_style.contains(FontStyle::ITALIC),
            underline: style.font_style.contains(FontStyle::UNDERLINE),
        };
        (token_style, text.to_owned())
    };
    Some(pieces.into_iter().map(convert).collect())
}

} // verus!
