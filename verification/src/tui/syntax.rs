//! Syntax highlighting of code blocks.
use crate::parser::lines::{law_lines_with_endings, lines_with_endings, text_lines};
use crate::text::ascii_lowered;
use crate::tui::cache::{law_cache_stays_bounded, stored, LineCache, CACHE_LIMIT};
use crate::tui::code::{
    adapt, adapted, draw_line, drawn_line, expand_tabs, expanded, is_drawn_line, is_whole,
    law_drawn_line_shows_the_line, law_tabs_do_not_change_lines,
    law_whole_line_is_drawn_as_its_text, lemma_returns_end_each_line, parsed_models,
    returns_end_lines, spans_text, split_code_lines,
};
use crate::tui::engine::{
    background_of, builtin_theme, find_plain_text_syntax, find_syntax_by_token,
    get_theme, has_extension, highlight_line, highlight_step, highlighter_after, insert_theme,
    is_made_for, last_with_extension, last_with_name, last_with_name_like, line_highlighter,
    load_default_syntaxes, load_default_themes, parse_theme, parsed_theme, plain_text_index,
    start_highlighter, syntax_at, syntaxes_in, theme_background, theme_in, themes_in, token_index,
    TokenStyle,
};
use crate::tui::style::{line_models, Color, Line, SpanModel};
use crate::tui::terminal_compat::ColorMode;
use crate::tui::theme::quantized;
use crate::tui::theme_dates::{dates_are_plain, has_plain_dates};
use crate::tui::ui::util::texts;
use std::collections::hash_map::DefaultHasher;
use std::hash::Hasher;
use syntect::highlighting::Theme;
use syntect::parsing::{SyntaxReference, SyntaxSet};
use vstd::prelude::*;
use vstd::std_specs::hash::DefaultHasherAdditionalSpecFns;
use vstd::utf8::encode_utf8;

verus! {

/// The theme that is used where the one asked for does not exist.
pub const DEFAULT_CODE_THEME: &'static str = "base16-ocean.dark";

/// Why a theme file is skipped that has a date near an end of the calendar.
pub const DATE_OUT_OF_RANGE: &'static str = "date out of range";

/// What to paint behind a code block.
#[derive(Debug, Clone, Copy, PartialEq, Eq, Structural)]
pub enum CodeBlockBackground {
    /// The code theme's own background, so the block agrees with its token
    /// colors. This is what an unset `code_block_bg` resolves to.
    FromTheme,
    /// An explicit color from config.
    Color(Color),
    /// Paint nothing, leaving code on the terminal background.
    Off,
}

impl Default for CodeBlockBackground {
    fn default() -> (r: Self)
        ensures
            r == CodeBlockBackground::FromTheme,
    {
        CodeBlockBackground::FromTheme
    }
}

// ---------- code themes ----------

/// A `.tmTheme` file: its name without the extension, if that is valid text, and
/// its content.
#[derive(Debug)]
pub struct ThemeFile {
    pub name: Option<String>,
    pub content: Vec<u8>,
}

/// A theme file that holds no theme.
#[derive(Debug)]
pub struct SkippedTheme {
    /// The position of the file.
    pub index: usize,
    /// Why it is skipped.
    pub reason: String,
}

/// What went wrong while a theme was looked up.
#[derive(Debug)]
pub struct ThemeReport {
    /// The files that hold no theme, in order.
    pub skipped: Vec<SkippedTheme>,
    /// No theme has the name asked for, so the default theme is used.
    pub missing: bool,
}

/// The theme that the content of a file describes, or why it is none.
pub open spec fn theme_of(content: Seq<u8>) -> Result<Theme, Seq<char>> {
    if has_plain_dates(content) {
        parsed_theme(content)
    } else {
        Err(DATE_OUT_OF_RANGE@)
    }
}

/// The theme that the content of a file describes, or why it is none.
fn load_theme(content: &[u8]) -> (r: Result<Theme, String>)
    ensures
        match r {
            Ok(theme) => theme_of(content@) == Ok::<Theme, Seq<char>>(theme),
            Err(reason) => theme_of(content@) == Err::<Theme, Seq<char>>(reason@),
        },
{
    if dates_are_plain(content) {
        parse_theme(content)
    } else {
        Err(DATE_OUT_OF_RANGE.to_owned())
    }
}

/// The file holds a theme of this name.
pub open spec fn is_theme_file(file: ThemeFile, name: Seq<char>) -> bool {
    &&& theme_of(file.content@) is Ok
    &&& file.name is Some
    &&& file.name->0@ == name
}

/// The theme of this name: from the last of the first `count` files that holds
/// one, else the built-in one.
pub open spec fn theme_named(name: Seq<char>, files: Seq<ThemeFile>, count: int) -> Option<Theme>
    decreases count,
{
    if count <= 0 {
        builtin_theme(name)
    } else if is_theme_file(files[count - 1], name) {
        Some(theme_of(files[count - 1].content@)->Ok_0)
    } else {
        theme_named(name, files, count - 1)
    }
}

/// The theme that a name asks for, or the default theme if there is no such one.
pub open spec fn chosen_theme(name: Seq<char>, files: Seq<ThemeFile>) -> Theme {
    match theme_named(name, files, files.len() as int) {
        Some(theme) => theme,
        None => theme_named(DEFAULT_CODE_THEME@, files, files.len() as int)->0,
    }
}

/// The files, among the first `count`, that hold no theme: their positions, and
/// why each is skipped.
pub open spec fn skipped_files(files: Seq<ThemeFile>, count: int) -> Seq<(int, Seq<char>)>
    decreases count,
{
    if count <= 0 {
        Seq::empty()
    } else {
        let before = skipped_files(files, count - 1);
        match theme_of(files[count - 1].content@) {
            Ok(_) => before,
            Err(message) => before.push((count - 1, message)),
        }
    }
}

/// The models of skipped files.
pub open spec fn skipped_models(skipped: Seq<SkippedTheme>) -> Seq<(int, Seq<char>)> {
    skipped.map_values(|s: SkippedTheme| (s.index as int, s.reason@))
}

/// Look up a code theme among the built-in themes and the given files, and
/// report the files that hold no theme, each with the reason.
pub fn load_code_theme(name: &str, files: &[ThemeFile]) -> (r: (Theme, ThemeReport))
    ensures
        r.0 == chosen_theme(name@, files@),
        skipped_models(r.1.skipped@) == skipped_files(files@, files@.len() as int),
        r.1.missing == (theme_named(name@, files@, files@.len() as int) is None),
        theme_named(DEFAULT_CODE_THEME@, files@, files@.len() as int) is Some,
{
    let mut set = load_default_themes();
    let mut skipped: Vec<SkippedTheme> = Vec::new();
    let mut i: usize = 0;
    while i < files.len()
        invariant
            0 <= i <= files@.len(),
            skipped_models(skipped@) == skipped_files(files@, i as int),
            themes_in(set).dom().contains(DEFAULT_CODE_THEME@),
            forall|n: Seq<char>| #[trigger]
                theme_in(themes_in(set), n) == theme_named(n, files@, i as int),
        decreases files@.len() - i,
    {
        let ghost before = themes_in(set);
        match load_theme(files[i].content.as_slice()) {
            Ok(theme) => {
                if let Some(file_name) = &files[i].name {
                    insert_theme(&mut set, file_name.clone(), theme);
                }
            },
            Err(reason) => {
                let ghost known = skipped_models(skipped@);
                let ghost message = reason@;
                skipped.push(SkippedTheme { index: i, reason });
                assert(skipped_models(skipped@) =~= known.push((i as int, message)));
            },
        }
        i += 1;
        assert forall|n: Seq<char>| #[trigger]
            theme_in(themes_in(set), n) == theme_named(n, files@, i as int) by {
            assert(theme_in(before, n) == theme_named(n, files@, i - 1));
        }
    }
    assert(theme_in(themes_in(set), DEFAULT_CODE_THEME@) is Some);
    match get_theme(&set, name) {
        Some(theme) => (theme, ThemeReport { skipped, missing: false }),
        None => {
            let theme = get_theme(&set, DEFAULT_CODE_THEME).unwrap();
            (theme, ThemeReport { skipped, missing: true })
        },
    }
}

// ---------- highlighting ----------

/// The position of the syntax for a language: that of the token, or that of
/// plain text for an unknown one.
pub open spec fn language_index(
    syntaxes: Seq<(Seq<char>, Seq<Seq<char>>)>,
    language: Seq<char>,
) -> int {
    if token_index(syntaxes, language) >= 0 {
        token_index(syntaxes, language)
    } else {
        plain_text_index(syntaxes)
    }
}

/// The syntax of the set for a language.
pub open spec fn language_syntax(set: SyntaxSet, language: Seq<char>) -> SyntaxReference {
    syntax_at(set, language_index(syntaxes_in(set), language))
}

/// What the highlighter makes of line `i` of the code, after the lines above it.
/// Tabs become spaces first.
pub open spec fn parsed_line(
    set: SyntaxSet,
    code: Seq<char>,
    language: Seq<char>,
    theme: Theme,
    i: int,
) -> Option<Seq<(TokenStyle, Seq<char>)>> {
    let start = line_highlighter(language_syntax(set, language), theme);
    let lines = lines_with_endings(expanded(code));
    highlight_step(highlighter_after(start, lines.take(i), set), lines[i], set).0
}

/// The drawn lines of code.
pub open spec fn highlighted(
    set: SyntaxSet,
    code: Seq<char>,
    language: Seq<char>,
    theme: Theme,
    mode: ColorMode,
) -> Seq<Seq<SpanModel>> {
    Seq::new(
        lines_with_endings(expanded(code)).len(),
        |i: int| drawn_line(parsed_line(set, code, language, theme, i), mode),
    )
}

/// Every line of the code is parsed, from its start to its end.
pub open spec fn is_wholly_parsed(
    set: SyntaxSet,
    code: Seq<char>,
    language: Seq<char>,
    theme: Theme,
) -> bool {
    let lines = lines_with_endings(expanded(code));
    forall|i: int|
        0 <= i < lines.len() ==> is_whole(
            parsed_line(set, code, language, theme, i),
            #[trigger] lines[i],
        )
}

/// There is a drawn line for each line of the code, and it shows the line.
pub open spec fn is_drawn_code(drawn: Seq<Seq<SpanModel>>, code: Seq<char>) -> bool {
    let lines = lines_with_endings(expanded(code));
    &&& drawn.len() == lines.len()
    &&& forall|i: int| 0 <= i < lines.len() ==> is_drawn_line(#[trigger] drawn[i], lines[i])
}

proof fn lemma_index_bounds(
    syntaxes: Seq<(Seq<char>, Seq<Seq<char>>)>,
    token: Seq<char>,
)
    ensures
        last_with_extension(syntaxes, token) < syntaxes.len(),
        last_with_name_like(syntaxes, token) < syntaxes.len(),
        last_with_name(syntaxes, token) < syntaxes.len(),
    decreases syntaxes.len(),
{
    if syntaxes.len() > 0 {
        lemma_index_bounds(syntaxes.drop_last(), token);
    }
}

/// Highlight every line of `code`, without a look at what was highlighted
/// before.
fn highlight_fresh(
    set: &SyntaxSet,
    theme: &Theme,
    mode: ColorMode,
    code: &str,
    language: &str,
) -> (r: Vec<Line>)
    requires
        plain_text_index(syntaxes_in(*set)) >= 0,
    ensures
        line_models(r@) == highlighted(*set, code@, language@, *theme, mode),
        is_drawn_code(line_models(r@), code@),
{
    let code_owned = expand_tabs(code);
    let lines = split_code_lines(code_owned.as_str());
    let syntax = match find_syntax_by_token(set, language) {
        Some(syntax) => syntax,
        None => find_plain_text_syntax(set),
    };
    let ghost index = language_index(syntaxes_in(*set), language@);
    proof {
        lemma_index_bounds(syntaxes_in(*set), language@);
        lemma_index_bounds(syntaxes_in(*set), "Plain Text"@);
        assert(*syntax == syntax_at(*set, index));
    }
    let mut highlighter = start_highlighter(syntax, theme);
    let ghost start = line_highlighter(*syntax, *theme);
    let ghost all = texts(lines@);
    let ghost drawn = highlighted(*set, code@, language@, *theme, mode);
    let mut r: Vec<Line> = Vec::new();
    let mut i: usize = 0;
    assert(all.take(0) =~= Seq::empty());
    while i < lines.len()
        invariant
            0 <= i <= lines@.len(),
            0 <= index < syntaxes_in(*set).len(),
            index == language_index(syntaxes_in(*set), language@),
            start == line_highlighter(syntax_at(*set, index), *theme),
            all == texts(lines@),
            all == lines_with_endings(expanded(code@)),
            drawn == highlighted(*set, code@, language@, *theme, mode),
            highlighter == highlighter_after(start, all.take(i as int), *set),
            line_models(r@) == drawn.take(i as int),
            forall|j: int| 0 <= j < i ==> is_drawn_line(#[trigger] drawn[j], all[j]),
        decreases lines@.len() - i,
    {
        let ghost before = highlighter;
        let ghost above = line_models(r@);
        assert(is_made_for(highlighter, *set));
        let pieces = highlight_line(&mut highlighter, lines[i].as_str(), set);
        let line = draw_line(&pieces, mode);
        proof {
            assert(lines@[i as int]@ == all[i as int]);
            assert(parsed_models(pieces) == highlight_step(before, all[i as int], *set).0);
            assert(parsed_models(pieces) == parsed_line(
                *set,
                code@,
                language@,
                *theme,
                i as int,
            ));
            assert(line@ == drawn[i as int]);
            law_lines_with_endings(expanded(code@));
            law_drawn_line_shows_the_line(parsed_models(pieces), all[i as int], mode);
            assert(all.take(i + 1).drop_last() =~= all.take(i as int));
        }
        r.push(line);
        assert(line_models(r@) =~= above.push(line@));
        i += 1;
        assert(line_models(r@) =~= drawn.take(i as int));
    }
    assert(drawn.take(i as int) =~= drawn);
    r
}

// ---------- memory ----------

/// The key under which the lines of `code` in `language` are remembered.
pub open spec fn key_of(code: Seq<char>, language: Seq<char>) -> u64 {
    DefaultHasher::spec_finish(
        seq![encode_utf8(code), seq![0xffu8], encode_utf8(language), seq![0xffu8]],
    )
}

/// The hash of the code and the language, each with an end mark that no text
/// contains.
pub fn cache_key(code: &str, language: &str) -> (r: u64)
    ensures
        r == key_of(code@, language@),
{
    let end_mark: [u8; 1] = [0xff];
    let mut hasher = DefaultHasher::new();
    hasher.write(code.as_bytes());
    hasher.write(end_mark.as_slice());
    hasher.write(language.as_bytes());
    hasher.write(end_mark.as_slice());
    proof {
        assert(end_mark@ =~= seq![0xffu8]);
        assert(hasher@ =~= seq![
            encode_utf8(code@),
            seq![0xffu8],
            encode_utf8(language@),
            seq![0xffu8],
        ]);
    }
    hasher.finish()
}

/// What is returned for a key: what is remembered, else what is fresh.
pub open spec fn recalled(
    entries: Map<u64, Seq<Seq<SpanModel>>>,
    key: u64,
    fresh: Seq<Seq<SpanModel>>,
) -> Seq<Seq<SpanModel>> {
    if entries.dom().contains(key) {
        entries[key]
    } else {
        fresh
    }
}

/// What is remembered after a request: fresh lines are stored.
pub open spec fn remembered(
    entries: Map<u64, Seq<Seq<SpanModel>>>,
    key: u64,
    fresh: Seq<Seq<SpanModel>>,
) -> Map<u64, Seq<Seq<SpanModel>>> {
    if entries.dom().contains(key) {
        entries
    } else {
        stored(entries, key, fresh)
    }
}

/// The lines are those of a request, code and language, with this key.
pub open spec fn is_highlighting(
    set: SyntaxSet,
    lines: Seq<Seq<SpanModel>>,
    key: u64,
    requests: Set<(Seq<char>, Seq<char>)>,
    theme: Theme,
    mode: ColorMode,
) -> bool {
    exists|request: (Seq<char>, Seq<char>)| #[trigger]
        requests.contains(request) && key_of(request.0, request.1) == key && lines == highlighted(
            set,
            request.0,
            request.1,
            theme,
            mode,
        ) && is_drawn_code(lines, request.0)
}

/// No other request has the same key as this one.
pub open spec fn has_own_key(
    requests: Set<(Seq<char>, Seq<char>)>,
    code: Seq<char>,
    language: Seq<char>,
) -> bool {
    forall|request: (Seq<char>, Seq<char>)| #[trigger]
        requests.contains(request) && key_of(request.0, request.1) == key_of(code, language)
            ==> request == (code, language)
}

pub struct SyntaxHighlighter {
    syntax_set: SyntaxSet,
    theme: Theme,
    /// Background for the code block area, or `None` to leave it unpainted.
    /// Config override if one was given, otherwise the code theme's own
    /// background so it agrees with the token colors.
    code_block_bg: Option<Color>,
    /// What the terminal can display. Syntect always reports 24-bit color, so
    /// every color leaving this type is mapped through it.
    color_mode: ColorMode,
    /// Cached highlight results keyed by the hash of content and language.
    cache: LineCache,
    /// Every code and language that was highlighted so far.
    requested: Ghost<Set<(Seq<char>, Seq<char>)>>,
}

/// The background of a code block as the terminal can show it, from the
/// background that the theme sets.
pub open spec fn resolved_background(
    of_theme: Option<(u8, u8, u8)>,
    background: CodeBlockBackground,
    mode: ColorMode,
) -> Option<Color> {
    match background {
        CodeBlockBackground::Off => None,
        CodeBlockBackground::Color(color) => Some(adapted(color, mode)),
        CodeBlockBackground::FromTheme => match of_theme {
            Some(rgb) => Some(adapted(Color::Rgb(rgb.0, rgb.1, rgb.2), mode)),
            None => None,
        },
    }
}

/// The background of a code block, from the background that the theme sets.
pub fn resolve_background(
    of_theme: Option<(u8, u8, u8)>,
    background: CodeBlockBackground,
    mode: ColorMode,
) -> (r: Option<Color>)
    ensures
        r == resolved_background(of_theme, background, mode),
{
    match background {
        CodeBlockBackground::Off => None,
        CodeBlockBackground::Color(color) => Some(adapt(color, mode)),
        CodeBlockBackground::FromTheme => match of_theme {
            Some(rgb) => Some(adapt(Color::Rgb(rgb.0, rgb.1, rgb.2), mode)),
            None => None,
        },
    }
}

impl SyntaxHighlighter {
    /// The syntaxes that the highlighter knows.
    pub closed spec fn syntaxes(&self) -> SyntaxSet {
        self.syntax_set
    }

    /// The theme of the code.
    pub closed spec fn code_theme(&self) -> Theme {
        self.theme
    }

    /// What the terminal can display.
    pub closed spec fn terminal_colors(&self) -> ColorMode {
        self.color_mode
    }

    /// The background of code blocks.
    pub closed spec fn background(&self) -> Option<Color> {
        self.code_block_bg
    }

    /// The lines that are remembered, by key.
    pub closed spec fn memory(&self) -> Map<u64, Seq<Seq<SpanModel>>> {
        self.cache@
    }

    /// Every code and language that was highlighted so far.
    pub closed spec fn requests(&self) -> Set<(Seq<char>, Seq<char>)> {
        self.requested@
    }

    /// The highlighter knows a syntax for plain text, and remembers nothing but
    /// what was highlighted, and no more than the limit of the cache.
    pub closed spec fn wf(&self) -> bool {
        &&& plain_text_index(syntaxes_in(self.syntax_set)) >= 0
        &&& self.memory().dom().finite()
        &&& self.memory().len() <= CACHE_LIMIT
        &&& forall|key: u64| #[trigger]
            self.memory().dom().contains(key) ==> is_highlighting(
                self.syntax_set,
                self.memory()[key],
                key,
                self.requests(),
                self.theme,
                self.color_mode,
            )
    }

    /// A highlighter for the theme of this name, from the theme files or else
    /// from the built-in themes; the default theme if there is no such one. The
    /// report says which files hold no theme, and whether the theme is missing.
    pub fn load(
        theme: &str,
        theme_files: &[ThemeFile],
        background: CodeBlockBackground,
        color_mode: ColorMode,
    ) -> (r: (Self, ThemeReport))
        ensures
            r.0.wf(),
            r.0.code_theme() == chosen_theme(theme@, theme_files@),
            r.0.terminal_colors() == color_mode,
            r.0.background() == resolved_background(
                background_of(chosen_theme(theme@, theme_files@)),
                background,
                color_mode,
            ),
            r.0.memory() == Map::<u64, Seq<Seq<SpanModel>>>::empty(),
            r.0.requests() == Set::<(Seq<char>, Seq<char>)>::empty(),
            skipped_models(r.1.skipped@) == skipped_files(
                theme_files@,
                theme_files@.len() as int,
            ),
            r.1.missing == (theme_named(theme@, theme_files@, theme_files@.len() as int) is None),
    {
        let syntax_set = load_default_syntaxes();
        let (theme, report) = load_code_theme(theme, theme_files);
        let code_block_bg = resolve_background(theme_background(&theme), background, color_mode);
        let highlighter = SyntaxHighlighter {
            syntax_set,
            theme,
            code_block_bg,
            color_mode,
            cache: LineCache::new(),
            requested: Ghost(Set::empty()),
        };
        (highlighter, report)
    }

    /// A highlighter for the theme of this name, from the theme files or else
    /// from the built-in themes; the default theme if there is no such one.
    pub fn new(
        theme: &str,
        theme_files: &[ThemeFile],
        background: CodeBlockBackground,
        color_mode: ColorMode,
    ) -> (r: Self)
        ensures
            r.wf(),
            r.code_theme() == chosen_theme(theme@, theme_files@),
            r.terminal_colors() == color_mode,
            r.background() == resolved_background(
                background_of(chosen_theme(theme@, theme_files@)),
                background,
                color_mode,
            ),
            r.memory() == Map::<u64, Seq<Seq<SpanModel>>>::empty(),
            r.requests() == Set::<(Seq<char>, Seq<char>)>::empty(),
    {
        let (highlighter, _report) = SyntaxHighlighter::load(
            theme,
            theme_files,
            background,
            color_mode,
        );
        highlighter
    }

    /// Background to paint behind a code block, if any.
    pub fn code_block_bg(&self) -> (r: Option<Color>)
        ensures
            r == self.background(),
    {
        self.code_block_bg
    }

    /// Highlight `code` as `language`. Result is memoized — repeat calls with
    /// the same `(code, language)` pair return cloned cached lines without
    /// re-invoking syntect.
    pub fn highlight_code(&mut self, code: &str, language: &str) -> (r: Vec<Line>)
        requires
            old(self).wf(),
        ensures
            final(self).wf(),
            final(self).syntaxes() == old(self).syntaxes(),
            final(self).code_theme() == old(self).code_theme(),
            final(self).terminal_colors() == old(self).terminal_colors(),
            final(self).background() == old(self).background(),
            line_models(r@) == recalled(
                old(self).memory(),
                key_of(code@, language@),
                highlighted(
                    old(self).syntaxes(),
                    code@,
                    language@,
                    old(self).code_theme(),
                    old(self).terminal_colors(),
                ),
            ),
            final(self).memory() == remembered(
                old(self).memory(),
                key_of(code@, language@),
                highlighted(
                    old(self).syntaxes(),
                    code@,
                    language@,
                    old(self).code_theme(),
                    old(self).terminal_colors(),
                ),
            ),
            final(self).memory().len() <= CACHE_LIMIT,
            final(self).requests() == old(self).requests().insert((code@, language@)),
            is_highlighting(
                old(self).syntaxes(),
                line_models(r@),
                key_of(code@, language@),
                final(self).requests(),
                old(self).code_theme(),
                old(self).terminal_colors(),
            ),
            has_own_key(old(self).requests(), code@, language@) ==> line_models(r@)
                == highlighted(
                old(self).syntaxes(),
                code@,
                language@,
                old(self).code_theme(),
                old(self).terminal_colors(),
            ) && is_drawn_code(line_models(r@), code@),
    {
        let key = cache_key(code, language);
        let ghost before = self.requests();
        self.requested = Ghost(before.insert((code@, language@)));
        proof {
            assert forall|k: u64| #[trigger] self.memory().dom().contains(k) implies is_highlighting(
                self.syntax_set,
                self.memory()[k],
                k,
                self.requests(),
                self.theme,
                self.color_mode,
            ) by {
                lemma_more_requests(
                    self.syntax_set,
                    self.memory()[k],
                    k,
                    before,
                    self.requests(),
                    self.theme,
                    self.color_mode,
                );
            }
        }
        if let Some(cached) = self.cache.get(key) {
            return cached;
        }
        let lines = highlight_fresh(
            &self.syntax_set,
            &self.theme,
            self.color_mode,
            code,
            language,
        );
        let ghost fresh = line_models(lines@);
        let copy = lines.clone();
        proof {
            assert(line_models(copy@) =~= fresh);
            law_cache_stays_bounded(self.memory(), key, fresh);
            assert(self.requests().contains((code@, language@)));
        }
        self.cache.insert(key, copy);
        lines
    }
}

proof fn lemma_more_requests(
    set: SyntaxSet,
    lines: Seq<Seq<SpanModel>>,
    key: u64,
    fewer: Set<(Seq<char>, Seq<char>)>,
    more: Set<(Seq<char>, Seq<char>)>,
    theme: Theme,
    mode: ColorMode,
)
    requires
        is_highlighting(set, lines, key, fewer, theme, mode),
        fewer.subset_of(more),
    ensures
        is_highlighting(set, lines, key, more, theme, mode),
{
    let request = choose|request: (Seq<char>, Seq<char>)| #[trigger]
        fewer.contains(request) && key_of(request.0, request.1) == key && lines == highlighted(
            set,
            request.0,
            request.1,
            theme,
            mode,
        ) && is_drawn_code(lines, request.0);
    assert(more.contains(request));
}

/// A repeat request returns what the first one returned, and changes nothing
/// that is remembered.
pub proof fn law_repeated_request_is_remembered(
    entries: Map<u64, Seq<Seq<SpanModel>>>,
    key: u64,
    fresh: Seq<Seq<SpanModel>>,
    other: Seq<Seq<SpanModel>>,
)
    ensures
        recalled(remembered(entries, key, fresh), key, other) == recalled(entries, key, fresh),
        remembered(remembered(entries, key, fresh), key, other) == remembered(
            entries,
            key,
            fresh,
        ),
{
}

proof fn lemma_index_ignores_case(
    syntaxes: Seq<(Seq<char>, Seq<Seq<char>>)>,
    a: Seq<char>,
    b: Seq<char>,
)
    requires
        ascii_lowered(a) == ascii_lowered(b),
    ensures
        last_with_extension(syntaxes, a) == last_with_extension(syntaxes, b),
        last_with_name_like(syntaxes, a) == last_with_name_like(syntaxes, b),
    decreases syntaxes.len(),
{
    if syntaxes.len() > 0 {
        lemma_index_ignores_case(syntaxes.drop_last(), a, b);
        assert(has_extension(syntaxes.last(), a) == has_extension(syntaxes.last(), b));
    }
}

/// A language may be written in capitals or not.
pub proof fn law_language_ignores_case(
    set: SyntaxSet,
    code: Seq<char>,
    a: Seq<char>,
    b: Seq<char>,
    theme: Theme,
    mode: ColorMode,
)
    requires
        ascii_lowered(a) == ascii_lowered(b),
    ensures
        highlighted(set, code, a, theme, mode) == highlighted(set, code, b, theme, mode),
{
    lemma_index_ignores_case(syntaxes_in(set), a, b);
}

/// Code that is wholly parsed is drawn as it reads: there is a line for each of
/// its lines, with the same text but for spaces in place of tabs, and no span
/// holds a line ending. Carriage returns other than in line endings are left out
/// of the claim.
pub proof fn law_highlighted_code_shows_the_code(
    set: SyntaxSet,
    code: Seq<char>,
    language: Seq<char>,
    theme: Theme,
    mode: ColorMode,
)
    requires
        returns_end_lines(code),
        is_wholly_parsed(set, code, language, theme),
    ensures
        ({
            let drawn = highlighted(set, code, language, theme, mode);
            &&& drawn.len() == text_lines(code).len()
            &&& forall|k: int|
                0 <= k < drawn.len() ==> spans_text(#[trigger] drawn[k]) == expanded(
                    text_lines(code)[k],
                )
            &&& forall|k: int, j: int|
                0 <= k < drawn.len() && 0 <= j < drawn[k].len() ==> !(
                #[trigger] drawn[k][j]).content.contains('\n')
                    && !drawn[k][j].content.contains('\r')
        }),
{
    let drawn = highlighted(set, code, language, theme, mode);
    law_tabs_do_not_change_lines(code);
    assert forall|k: int| 0 <= k < drawn.len() implies spans_text(#[trigger] drawn[k]) == expanded(
        text_lines(code)[k],
    ) by {
        lemma_drawn_code_line(set, code, language, theme, mode, k);
    }
    assert forall|k: int, j: int| 0 <= k < drawn.len() && 0 <= j < drawn[k].len() implies !(
    #[trigger] drawn[k][j]).content.contains('\n') && !drawn[k][j].content.contains('\r') by {
        lemma_drawn_code_line(set, code, language, theme, mode, k);
    }
}

proof fn lemma_drawn_code_line(
    set: SyntaxSet,
    code: Seq<char>,
    language: Seq<char>,
    theme: Theme,
    mode: ColorMode,
    k: int,
)
    requires
        returns_end_lines(code),
        is_wholly_parsed(set, code, language, theme),
        0 <= k < highlighted(set, code, language, theme, mode).len(),
    ensures
        ({
            let drawn = highlighted(set, code, language, theme, mode)[k];
            &&& spans_text(drawn) == expanded(text_lines(code)[k])
            &&& forall|j: int|
                0 <= j < drawn.len() ==> !(#[trigger] drawn[j]).content.contains('\n')
                    && !drawn[j].content.contains('\r')
        }),
{
    let line = lines_with_endings(code)[k];
    law_tabs_do_not_change_lines(code);
    law_lines_with_endings(code);
    lemma_returns_end_each_line(code, k);
    assert(lines_with_endings(expanded(code))[k] == expanded(line));
    law_whole_line_is_drawn_as_its_text(parsed_line(set, code, language, theme, k), line, mode);
}

/// The color mode changes colors and nothing else: in the palette, code is drawn
/// with the same lines, spans, texts and fonts as in 24-bit color, and each color
/// is the one that the palette has for it.
pub proof fn law_color_mode_changes_colors_only(
    set: SyntaxSet,
    code: Seq<char>,
    language: Seq<char>,
    theme: Theme,
)
    ensures
        ({
            let full = highlighted(set, code, language, theme, ColorMode::Rgb);
            let palette = highlighted(set, code, language, theme, ColorMode::Indexed256);
            &&& full.len() == palette.len()
            &&& forall|k: int| 0 <= k < full.len() ==> (#[trigger] full[k]).len() == palette[k].len()
            &&& forall|k: int, j: int|
                0 <= k < full.len() && 0 <= j < full[k].len() ==> differs_in_color_only(
                    #[trigger] full[k][j],
                    palette[k][j],
                )
        }),
{
}

/// The two spans have the same text and the same font; the first is in a 24-bit
/// color and the second in the one that the palette has for it.
pub open spec fn differs_in_color_only(full: SpanModel, palette: SpanModel) -> bool {
    &&& full.content == palette.content
    &&& full.style.bold == palette.style.bold
    &&& full.style.italic == palette.style.italic
    &&& full.style.underlined == palette.style.underlined
    &&& full.style.bg == palette.style.bg
    &&& full.style.fg matches Some(color) && color is Rgb && palette.style.fg == Some(
        quantized(color),
    )
}

} // verus!
