//! What highlighting means in terms of the engine's steps, the theme files and
//! the requests.
use crate::parser::lines::{ends_a_line, lemma_lines_concat, lines_with_endings};
use crate::text::ascii_lowered;
use crate::tui::cache::stored;
use crate::tui::code::{
    adapted, drawn_line, expanded, lemma_expanded_concat, lemma_without_ending, without_ending,
};
use crate::tui::engine::{
    builtin_theme, has_extension, highlight_step, highlighter_after, last_with_extension,
    last_with_name, last_with_name_like, line_highlighter, parsed_theme, syntax_at, syntaxes_in,
    TokenStyle,
};
use crate::tui::style::{Color, SpanModel};
use crate::tui::syntax::{
    chosen_theme, highlighted, key_of, language_syntax, resolved_background, skipped_files,
    theme_named, CodeBlockBackground, ThemeFile,
};
use crate::tui::terminal_compat::ColorMode;
use crate::tui::theme::quantized;
use crate::tui::theme_dates::has_plain_dates;
use std::collections::hash_map::DefaultHasher;
use syntect::easy::HighlightLines;
use syntect::highlighting::Theme;
use syntect::parsing::SyntaxSet;
use vstd::prelude::*;
use vstd::std_specs::hash::DefaultHasherAdditionalSpecFns;
use vstd::utf8::{encode_scalar, encode_utf8, encode_utf8_decode_utf8, has_width_1_encoding};

verus! {

// ---------- one line after the other ----------

/// The state of the engine before line `j`: that of the start before the first
/// line, and before every other one that in which the line above left it.
pub open spec fn state_before(
    start: HighlightLines<'static>,
    lines: Seq<Seq<char>>,
    j: int,
    set: SyntaxSet,
) -> HighlightLines<'static>
    decreases j,
{
    if j <= 0 {
        start
    } else {
        highlight_step(state_before(start, lines, j - 1, set), lines[j - 1], set).1
    }
}

proof fn lemma_state_before(
    start: HighlightLines<'static>,
    lines: Seq<Seq<char>>,
    j: int,
    set: SyntaxSet,
)
    requires
        0 <= j <= lines.len(),
    ensures
        state_before(start, lines, j, set) == highlighter_after(start, lines.take(j), set),
    decreases j,
{
    if j > 0 {
        lemma_state_before(start, lines, j - 1, set);
        assert(lines.take(j).drop_last() =~= lines.take(j - 1));
    } else {
        assert(lines.take(0) =~= Seq::empty());
    }
}

/// Each line is highlighted in the state in which the engine is left by the lines
/// above it, all the way from the first line.
pub proof fn law_lines_are_highlighted_in_turn(
    set: SyntaxSet,
    code: Seq<char>,
    language: Seq<char>,
    theme: Theme,
    mode: ColorMode,
    i: int,
)
    requires
        0 <= i < lines_with_endings(expanded(code)).len(),
    ensures
        highlighted(set, code, language, theme, mode).len() == lines_with_endings(
            expanded(code),
        ).len(),
        ({
            let lines = lines_with_endings(expanded(code));
            let start = line_highlighter(language_syntax(set, language), theme);
            highlighted(set, code, language, theme, mode)[i] == drawn_line(
                highlight_step(state_before(start, lines, i, set), lines[i], set).0,
                mode,
            )
        }),
{
    let lines = lines_with_endings(expanded(code));
    let start = line_highlighter(language_syntax(set, language), theme);
    lemma_state_before(start, lines, i, set);
}

proof fn lemma_states_go_on(
    start: HighlightLines<'static>,
    a: Seq<Seq<char>>,
    b: Seq<Seq<char>>,
    k: int,
    set: SyntaxSet,
)
    requires
        0 <= k <= b.len(),
    ensures
        state_before(start, a + b, a.len() + k, set) == state_before(
            state_before(start, a, a.len() as int, set),
            b,
            k,
            set,
        ),
    decreases k,
{
    if k > 0 {
        lemma_states_go_on(start, a, b, k - 1, set);
        assert((a + b)[a.len() + k - 1] == b[k - 1]);
    } else {
        lemma_states_agree(start, a, b, a.len() as int, set);
    }
}

proof fn lemma_states_agree(
    start: HighlightLines<'static>,
    a: Seq<Seq<char>>,
    b: Seq<Seq<char>>,
    j: int,
    set: SyntaxSet,
)
    requires
        0 <= j <= a.len(),
    ensures
        state_before(start, a + b, j, set) == state_before(start, a, j, set),
    decreases j,
{
    if j > 0 {
        lemma_states_agree(start, a, b, j - 1, set);
        assert((a + b)[j - 1] == a[j - 1]);
    }
}

/// Code that follows other code does not change how that is drawn, and is itself
/// drawn from the state in which the engine is left by it.
pub proof fn law_later_code_goes_on_from_earlier_code(
    set: SyntaxSet,
    a: Seq<char>,
    b: Seq<char>,
    language: Seq<char>,
    theme: Theme,
    mode: ColorMode,
)
    requires
        ends_a_line(a),
    ensures
        ({
            let lines_a = lines_with_endings(expanded(a));
            let lines_b = lines_with_endings(expanded(b));
            let start = line_highlighter(language_syntax(set, language), theme);
            let between = state_before(start, lines_a, lines_a.len() as int, set);
            let both = highlighted(set, a + b, language, theme, mode);
            &&& both.len() == lines_a.len() + lines_b.len()
            &&& both.take(lines_a.len() as int) == highlighted(set, a, language, theme, mode)
            &&& forall|k: int|
                0 <= k < lines_b.len() ==> #[trigger] both[lines_a.len() + k] == drawn_line(
                    highlight_step(state_before(between, lines_b, k, set), lines_b[k], set).0,
                    mode,
                )
        }),
{
    let lines_a = lines_with_endings(expanded(a));
    let lines_b = lines_with_endings(expanded(b));
    let lines = lines_with_endings(expanded(a + b));
    let start = line_highlighter(language_syntax(set, language), theme);
    let between = state_before(start, lines_a, lines_a.len() as int, set);
    let both = highlighted(set, a + b, language, theme, mode);
    let n = lines_a.len() as int;
    lemma_expanded_concat(a, b);
    assert(ends_a_line(expanded(a)));
    lemma_lines_concat(expanded(a), expanded(b));
    let first = highlighted(set, a, language, theme, mode);
    assert forall|i: int| 0 <= i < n implies both[i] == first[i] by {
        law_lines_are_highlighted_in_turn(set, a + b, language, theme, mode, i);
        law_lines_are_highlighted_in_turn(set, a, language, theme, mode, i);
        lemma_states_agree(start, lines_a, lines_b, i, set);
    }
    assert(both.take(n) =~= first);
    assert forall|k: int| 0 <= k < lines_b.len() implies #[trigger] both[n + k] == drawn_line(
        highlight_step(state_before(between, lines_b, k, set), lines_b[k], set).0,
        mode,
    ) by {
        law_lines_are_highlighted_in_turn(set, a + b, language, theme, mode, n + k);
        lemma_states_go_on(start, lines_a, lines_b, k, set);
    }
}

// ---------- styles ----------

/// Every piece of a line is drawn, in order, with its text but for a line ending,
/// and in its own color and font. A line that cannot be parsed is drawn empty.
pub proof fn law_pieces_keep_their_text_and_style(
    pieces: Seq<(TokenStyle, Seq<char>)>,
    mode: ColorMode,
)
    ensures
        ({
            let drawn = drawn_line(Some(pieces), mode);
            &&& drawn.len() == pieces.len()
            &&& forall|j: int|
                0 <= j < pieces.len() ==> is_piece_drawn(#[trigger] drawn[j], pieces[j], mode)
        }),
        drawn_line(None, mode).len() == 0,
{
    let drawn = drawn_line(Some(pieces), mode);
    assert forall|j: int| 0 <= j < pieces.len() implies is_piece_drawn(
        #[trigger] drawn[j],
        pieces[j],
        mode,
    ) by {
        let text = pieces[j].1;
        lemma_without_ending(text);
        lemma_ending(text);
    }
}

/// The span shows the piece: its text without line-ending characters at the end,
/// bold, italic and underlined as the piece is, on no background, and in the
/// color of the piece or, in the palette, the one that stands for it.
pub open spec fn is_piece_drawn(
    span: SpanModel,
    piece: (TokenStyle, Seq<char>),
    mode: ColorMode,
) -> bool {
    let full = Color::Rgb(piece.0.red, piece.0.green, piece.0.blue);
    &&& exists|ending: Seq<char>| #[trigger]
        is_line_ending(ending) && piece.1 == span.content + ending
    &&& span.content.len() > 0 ==> span.content.last() != '\n' && span.content.last() != '\r'
    &&& span.style.bold == piece.0.bold
    &&& span.style.italic == piece.0.italic
    &&& span.style.underlined == piece.0.underline
    &&& span.style.bg is None
    &&& mode == ColorMode::Rgb ==> span.style.fg == Some(full)
    &&& mode == ColorMode::Indexed256 ==> span.style.fg == Some(quantized(full))
}

/// Nothing but line-ending characters.
pub open spec fn is_line_ending(text: Seq<char>) -> bool {
    forall|k: int| 0 <= k < text.len() ==> #[trigger] text[k] == '\n' || text[k] == '\r'
}

proof fn lemma_ending(text: Seq<char>)
    ensures
        exists|ending: Seq<char>| #[trigger]
            is_line_ending(ending) && text == without_ending(text) + ending,
    decreases text.len(),
{
    let kept = without_ending(text);
    if text.len() > 0 && (text.last() == '\n' || text.last() == '\r') {
        lemma_ending(text.drop_last());
        let inner = choose|ending: Seq<char>| #[trigger]
            is_line_ending(ending) && text.drop_last() == kept + ending;
        let ending = inner.push(text.last());
        assert(text =~= text.drop_last().push(text.last()));
        assert(text =~= kept + ending);
        assert(is_line_ending(ending));
    } else {
        assert(text =~= kept + Seq::<char>::empty());
        assert(is_line_ending(Seq::empty()));
    }
}

// ---------- languages ----------

/// A language is highlighted with the last syntax that has it as an extension;
/// without any, with the last one of that name; without any, as plain text.
pub proof fn law_language_chooses_its_syntax(set: SyntaxSet, language: Seq<char>, k: int)
    requires
        0 <= k < syntaxes_in(set).len(),
    ensures
        ({
            let syntaxes = syntaxes_in(set);
            let extends = |m: int| has_extension(syntaxes[m], language);
            let named = |m: int| ascii_lowered(syntaxes[m].0) == ascii_lowered(language);
            let plain = |m: int| syntaxes[m].0 == "Plain Text"@;
            &&& is_last_of(extends, k, syntaxes.len() as int) ==> language_syntax(set, language)
                == syntax_at(set, k)
            &&& is_none_of(extends, syntaxes.len() as int) && is_last_of(
                named,
                k,
                syntaxes.len() as int,
            ) ==> language_syntax(set, language) == syntax_at(set, k)
            &&& is_none_of(extends, syntaxes.len() as int) && is_none_of(
                named,
                syntaxes.len() as int,
            ) && is_last_of(plain, k, syntaxes.len() as int) ==> language_syntax(set, language)
                == syntax_at(set, k)
        }),
{
    let syntaxes = syntaxes_in(set);
    let n = syntaxes.len() as int;
    let extends = |m: int| has_extension(syntaxes[m], language);
    let named = |m: int| ascii_lowered(syntaxes[m].0) == ascii_lowered(language);
    let plain = |m: int| syntaxes[m].0 == "Plain Text"@;
    assert(syntaxes.take(n) =~= syntaxes);
    if is_last_of(extends, k, n) {
        lemma_last_index(syntaxes, language, "Plain Text"@, extends, named, plain, k, n);
    }
    if is_none_of(extends, n) {
        lemma_no_index(syntaxes, language, "Plain Text"@, extends, named, plain, n);
        if is_last_of(named, k, n) {
            lemma_last_index(syntaxes, language, "Plain Text"@, extends, named, plain, k, n);
        }
        if is_none_of(named, n) && is_last_of(plain, k, n) {
            lemma_last_index(syntaxes, language, "Plain Text"@, extends, named, plain, k, n);
        }
    }
}

/// `k` is the last position below `n` that satisfies `p`.
pub open spec fn is_last_of(p: spec_fn(int) -> bool, k: int, n: int) -> bool {
    &&& 0 <= k < n
    &&& p(k)
    &&& forall|m: int| k < m < n ==> !#[trigger] p(m)
}

/// No position below `n` satisfies `p`.
pub open spec fn is_none_of(p: spec_fn(int) -> bool, n: int) -> bool {
    forall|m: int| 0 <= m < n ==> !#[trigger] p(m)
}

proof fn lemma_last_index(
    syntaxes: Seq<(Seq<char>, Seq<Seq<char>>)>,
    token: Seq<char>,
    name: Seq<char>,
    extends: spec_fn(int) -> bool,
    named: spec_fn(int) -> bool,
    exactly: spec_fn(int) -> bool,
    k: int,
    n: int,
)
    requires
        0 <= k < n <= syntaxes.len(),
        forall|m: int| #[trigger] extends(m) == has_extension(syntaxes[m], token),
        forall|m: int| #[trigger]
            named(m) == (ascii_lowered(syntaxes[m].0) == ascii_lowered(token)),
        forall|m: int| #[trigger] exactly(m) == (syntaxes[m].0 == name),
    ensures
        is_last_of(extends, k, n) ==> last_with_extension(syntaxes.take(n), token) == k,
        is_last_of(named, k, n) ==> last_with_name_like(syntaxes.take(n), token) == k,
        is_last_of(exactly, k, n) ==> last_with_name(syntaxes.take(n), name) == k,
    decreases n,
{
    let part = syntaxes.take(n);
    assert(part.drop_last() =~= syntaxes.take(n - 1));
    assert(part.last() == syntaxes[n - 1]);
    assert(extends(n - 1) == has_extension(part.last(), token));
    assert(named(n - 1) == (ascii_lowered(part.last().0) == ascii_lowered(token)));
    assert(exactly(n - 1) == (part.last().0 == name));
    if k < n - 1 {
        lemma_last_index(syntaxes, token, name, extends, named, exactly, k, n - 1);
    }
}

proof fn lemma_no_index(
    syntaxes: Seq<(Seq<char>, Seq<Seq<char>>)>,
    token: Seq<char>,
    name: Seq<char>,
    extends: spec_fn(int) -> bool,
    named: spec_fn(int) -> bool,
    exactly: spec_fn(int) -> bool,
    n: int,
)
    requires
        0 <= n <= syntaxes.len(),
        forall|m: int| #[trigger] extends(m) == has_extension(syntaxes[m], token),
        forall|m: int| #[trigger]
            named(m) == (ascii_lowered(syntaxes[m].0) == ascii_lowered(token)),
        forall|m: int| #[trigger] exactly(m) == (syntaxes[m].0 == name),
    ensures
        is_none_of(extends, n) ==> last_with_extension(syntaxes.take(n), token) == -1,
        is_none_of(named, n) ==> last_with_name_like(syntaxes.take(n), token) == -1,
        is_none_of(exactly, n) ==> last_with_name(syntaxes.take(n), name) == -1,
    decreases n,
{
    if n > 0 {
        let part = syntaxes.take(n);
        assert(part.drop_last() =~= syntaxes.take(n - 1));
        assert(part.last() == syntaxes[n - 1]);
        assert(extends(n - 1) == has_extension(part.last(), token));
        assert(named(n - 1) == (ascii_lowered(part.last().0) == ascii_lowered(token)));
        assert(exactly(n - 1) == (part.last().0 == name));
        lemma_no_index(syntaxes, token, name, extends, named, exactly, n - 1);
    }
}

// ---------- code themes ----------

/// The content of a file describes this theme.
pub open spec fn describes(content: Seq<u8>, theme: Theme) -> bool {
    has_plain_dates(content) && parsed_theme(content) == Ok::<Theme, Seq<char>>(theme)
}

proof fn lemma_earlier_files(name: Seq<char>, files: Seq<ThemeFile>, file: ThemeFile, count: int)
    requires
        0 <= count <= files.len(),
    ensures
        theme_named(name, files.push(file), count) == theme_named(name, files, count),
        skipped_files(files.push(file), count) == skipped_files(files, count),
    decreases count,
{
    if count > 0 {
        lemma_earlier_files(name, files, file, count - 1);
        assert(files.push(file)[count - 1] == files[count - 1]);
    }
}

/// Without files a name stands for the built-in theme. A file that is added takes
/// over its own name, if it has one and describes a theme, and changes no other.
pub proof fn law_theme_file_takes_over_its_name(
    name: Seq<char>,
    files: Seq<ThemeFile>,
    file: ThemeFile,
    theme: Theme,
)
    ensures
        theme_named(name, Seq::empty(), 0) == builtin_theme(name),
        ({
            let n = files.len() as int;
            let after = theme_named(name, files.push(file), n + 1);
            &&& describes(file.content@, theme) && file.name is Some && file.name->0@ == name
                ==> after == Some(theme)
            &&& file.name is None || file.name->0@ != name ==> after == theme_named(name, files, n)
            &&& (forall|t: Theme| !describes(file.content@, t)) ==> after == theme_named(
                name,
                files,
                n,
            )
        }),
{
    let n = files.len() as int;
    lemma_earlier_files(name, files, file, n);
    assert(files.push(file)[n] == file);
    if forall|t: Theme| !describes(file.content@, t) {
        if has_plain_dates(file.content@) && parsed_theme(file.content@) is Ok {
            assert(describes(file.content@, parsed_theme(file.content@)->Ok_0));
        }
    }
}

/// A theme that exists is used; in place of one that does not, the theme named
/// `base16-ocean.dark` is.
pub proof fn law_missing_theme_falls_back(name: Seq<char>, files: Seq<ThemeFile>, theme: Theme)
    ensures
        theme_named(name, files, files.len() as int) == Some(theme) ==> chosen_theme(name, files)
            == theme,
        theme_named(name, files, files.len() as int) is None && theme_named(
            "base16-ocean.dark"@,
            files,
            files.len() as int,
        ) == Some(theme) ==> chosen_theme(name, files) == theme,
{
}

/// A file is skipped just where it describes no theme, in the order of the
/// files, and the loader's own message is the reason wherever it has one.
pub proof fn law_files_without_a_theme_are_skipped(files: Seq<ThemeFile>, file: ThemeFile)
    ensures
        skipped_files(Seq::empty(), 0) == Seq::<(int, Seq<char>)>::empty(),
        ({
            let n = files.len() as int;
            let before = skipped_files(files, n);
            let after = skipped_files(files.push(file), n + 1);
            &&& (exists|t: Theme| describes(file.content@, t)) ==> after == before
            &&& (forall|t: Theme| !describes(file.content@, t)) ==> after.len() == before.len() + 1
                && after.drop_last() == before && after.last().0 == n
            &&& has_plain_dates(file.content@) && parsed_theme(file.content@) is Err
                ==> after.last().1 == parsed_theme(file.content@)->Err_0
        }),
{
    let n = files.len() as int;
    lemma_earlier_files(Seq::empty(), files, file, n);
    assert(files.push(file)[n] == file);
    if has_plain_dates(file.content@) && parsed_theme(file.content@) is Ok {
        assert(describes(file.content@, parsed_theme(file.content@)->Ok_0));
    } else {
        assert(skipped_files(files.push(file), n + 1).drop_last() =~= skipped_files(files, n));
    }
}

/// A configured background is used whatever the theme sets, and none is painted
/// where it is switched off; else it is the one that the theme sets, if any. The
/// palette changes the color only.
pub proof fn law_background_follows_the_setting(
    of_theme: Option<(u8, u8, u8)>,
    color: Color,
    background: CodeBlockBackground,
)
    ensures
        resolved_background(of_theme, CodeBlockBackground::Off, ColorMode::Rgb) is None,
        resolved_background(of_theme, CodeBlockBackground::Color(color), ColorMode::Rgb) == Some(
            color,
        ),
        of_theme matches Some(rgb) ==> resolved_background(
            of_theme,
            CodeBlockBackground::FromTheme,
            ColorMode::Rgb,
        ) == Some(Color::Rgb(rgb.0, rgb.1, rgb.2)),
        of_theme is None ==> resolved_background(
            of_theme,
            CodeBlockBackground::FromTheme,
            ColorMode::Rgb,
        ) is None,
        match resolved_background(of_theme, background, ColorMode::Rgb) {
            Some(full) => resolved_background(of_theme, background, ColorMode::Indexed256) == Some(
                quantized(full),
            ),
            None => resolved_background(of_theme, background, ColorMode::Indexed256) is None,
        },
{
}

/// Colors stay as they are on a 24-bit terminal and are taken from the palette on
/// any other.
pub proof fn law_colors_are_adapted_to_the_terminal(color: Color)
    ensures
        adapted(color, ColorMode::Rgb) == color,
        adapted(color, ColorMode::Indexed256) == quantized(color),
{
}

// ---------- memory ----------

/// What is remembered stays until the cache holds 256 entries; the next new entry
/// then starts the cache anew.
pub proof fn law_only_a_full_cache_forgets(
    entries: Map<u64, Seq<Seq<SpanModel>>>,
    key: u64,
    lines: Seq<Seq<SpanModel>>,
    other: u64,
)
    requires
        other != key,
    ensures
        entries.len() < 256 && entries.dom().contains(other) ==> stored(entries, key, lines).dom()
            .contains(other) && stored(entries, key, lines)[other] == entries[other],
        !entries.dom().contains(other) ==> !stored(entries, key, lines).dom().contains(other),
        entries.len() >= 256 ==> !stored(entries, key, lines).dom().contains(other),
{
}

/// What is hashed of a request: the code and the language, each with an end mark.
pub open spec fn key_bytes(code: Seq<char>, language: Seq<char>) -> Seq<u8> {
    encode_utf8(code) + seq![0xffu8] + encode_utf8(language) + seq![0xffu8]
}

/// Everything that was written, in order.
pub open spec fn all_written(writes: Seq<Seq<u8>>) -> Seq<u8>
    decreases writes.len(),
{
    if writes.len() == 0 {
        Seq::empty()
    } else {
        all_written(writes.drop_last()) + writes.last()
    }
}

/// The key of a request is the hash of its code and its language, in full.
pub proof fn law_key_is_the_hash_of_the_request(
    code: Seq<char>,
    language: Seq<char>,
) -> (writes: Seq<Seq<u8>>)
    ensures
        key_of(code, language) == DefaultHasher::spec_finish(writes),
        all_written(writes) == key_bytes(code, language),
{
    let mark = seq![0xffu8];
    let writes = seq![encode_utf8(code), mark, encode_utf8(language), mark];
    reveal_with_fuel(all_written, 5);
    assert(writes.drop_last() =~= seq![encode_utf8(code), mark, encode_utf8(language)]);
    assert(writes.drop_last().drop_last() =~= seq![encode_utf8(code), mark]);
    assert(writes.drop_last().drop_last().drop_last() =~= seq![encode_utf8(code)]);
    assert(writes.drop_last().drop_last().drop_last().drop_last() =~= Seq::empty());
    assert(all_written(writes) =~= key_bytes(code, language));
    writes
}

proof fn lemma_no_mark_in_char(ch: char)
    ensures
        forall|i: int|
            0 <= i < encode_scalar(ch as u32).len() ==> #[trigger] encode_scalar(ch as u32)[i]
                != 0xff,
{
    let c = ch as u32;
    if has_width_1_encoding(c) {
        assert(((c & 0x7f) as u8) < 0xff) by (bit_vector);
    } else {
        assert((0x80u8 | ((c & 0x3f) as u8)) < 0xff) by (bit_vector);
        assert((0x80u8 | (((c >> 6) & 0x3f) as u8)) < 0xff) by (bit_vector);
        assert((0x80u8 | (((c >> 12) & 0x3f) as u8)) < 0xff) by (bit_vector);
        assert((0xc0u8 | (((c >> 6) & 0x1f) as u8)) < 0xff) by (bit_vector);
        assert((0xe0u8 | (((c >> 12) & 0x0f) as u8)) < 0xff) by (bit_vector);
        assert((0xf0u8 | (((c >> 18) & 0x7) as u8)) < 0xff) by (bit_vector);
    }
}

proof fn lemma_no_mark_in_text(text: Seq<char>)
    ensures
        forall|i: int|
            0 <= i < encode_utf8(text).len() ==> #[trigger] encode_utf8(text)[i] != 0xff,
    decreases text.len(),
{
    if text.len() > 0 {
        lemma_no_mark_in_char(text[0]);
        lemma_no_mark_in_text(text.drop_first());
        let first = encode_scalar(text[0] as u32);
        let rest = encode_utf8(text.drop_first());
        assert forall|i: int| 0 <= i < encode_utf8(text).len() implies #[trigger] encode_utf8(
            text,
        )[i] != 0xff by {
            if i < first.len() {
                assert(encode_utf8(text)[i] == first[i]);
            } else {
                assert(encode_utf8(text)[i] == rest[i - first.len()]);
            }
        }
    }
}

/// No two requests are hashed alike: what is hashed tells the code and the
/// language.
pub proof fn law_requests_are_hashed_apart(
    code: Seq<char>,
    language: Seq<char>,
    other_code: Seq<char>,
    other_language: Seq<char>,
)
    requires
        key_bytes(code, language) == key_bytes(other_code, other_language),
    ensures
        code == other_code,
        language == other_language,
{
    let bytes = key_bytes(code, language);
    let a = encode_utf8(code);
    let b = encode_utf8(other_code);
    let c = encode_utf8(language);
    let d = encode_utf8(other_language);
    lemma_no_mark_in_text(code);
    lemma_no_mark_in_text(other_code);
    assert(bytes[a.len() as int] == 0xff);
    assert(key_bytes(other_code, other_language)[b.len() as int] == 0xff);
    if a.len() < b.len() {
        assert(key_bytes(other_code, other_language)[a.len() as int] == b[a.len() as int]);
    }
    if b.len() < a.len() {
        assert(bytes[b.len() as int] == a[b.len() as int]);
    }
    assert(a =~= bytes.take(a.len() as int));
    assert(b =~= key_bytes(other_code, other_language).take(a.len() as int));
    let split = a.len() as int + 1;
    assert(c =~= bytes.subrange(split, bytes.len() - 1));
    assert(d =~= key_bytes(other_code, other_language).subrange(split, bytes.len() - 1));
    encode_utf8_decode_utf8(code);
    encode_utf8_decode_utf8(other_code);
    encode_utf8_decode_utf8(language);
    encode_utf8_decode_utf8(other_language);
}

} // verus!
