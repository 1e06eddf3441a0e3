use vstd::prelude::*;
use vstd::seq_lib::group_seq_properties;

use crate::color::Color;
use crate::error::{ErrSpec, ThemeError};
use crate::palette::{entries_has_key, entries_keys_unique, entries_value, palette_entries};
use crate::text::{contains_link, remove_link, replace_link, split_at_char, strs_view, to_chars};

verus! {

// ---- tokens ----

/// The whitespace-separated tokens of a directive, empty pieces from
/// repeated blanks discarded.
pub open spec fn split_spaces(s: Seq<char>) -> Seq<Seq<char>> {
    split_at_char(s, ' ').filter(|p: Seq<char>| p.len() > 0)
}

proof fn lemma_filter_singleton(p: Seq<char>)
    ensures
        seq![p].filter(|x: Seq<char>| x.len() > 0) == (if p.len() > 0 {
            seq![p]
        } else {
            Seq::<Seq<char>>::empty()
        }),
{
    reveal_with_fuel(Seq::<Seq<char>>::filter, 2);
    assert(seq![p].drop_last() =~= Seq::<Seq<char>>::empty());
    if p.len() > 0 {
        assert(seq![p].filter(|x: Seq<char>| x.len() > 0) =~= seq![p]);
    } else {
        assert(seq![p].filter(|x: Seq<char>| x.len() > 0) =~= Seq::<Seq<char>>::empty());
    }
}

/// Splits a directive into its non-empty tokens.
pub fn split_tokens(s: &str) -> (parts: Vec<String>)
    ensures
        strs_view(parts@) == split_spaces(s@),
{
    broadcast use group_seq_properties;

    let chars = to_chars(s);
    let n = chars.len();
    let mut parts: Vec<String> = Vec::new();
    let mut start: usize = 0;
    let ghost ne = |p: Seq<char>| p.len() > 0;
    proof {
        assert(s@.skip(0) =~= s@);
        assert(strs_view(parts@) + split_spaces(s@) =~= split_spaces(s@));
    }
    loop
        invariant
            start <= n,
            n == s@.len(),
            chars@ == s@,
            ne == (|p: Seq<char>| p.len() > 0),
            strs_view(parts@) + split_at_char(s@.skip(start as int), ' ').filter(ne)
                == split_spaces(s@),
        decreases n - start,
    {
        let mut k = start;
        while k < n && chars[k] != ' '
            invariant
                start <= k <= n,
                n == s@.len(),
                chars@ == s@,
                forall|j: int| start <= j < k ==> s@[j] != ' ',
            decreases n - k,
        {
            k += 1;
        }
        let ghost rest = s@.skip(start as int);
        let ghost piece = rest.take(k - start);
        proof {
            assert(piece =~= s@.subrange(start as int, k as int));
            if k < n {
                crate::text::lemma_first_at_is(rest, ' ', k - start);
                assert(rest.skip(k - start + 1) =~= s@.skip(k + 1));
            } else {
                crate::text::lemma_first_at_none(rest, ' ');
                assert(rest.take(k - start) =~= rest);
            }
        }
        if k > start {
            let tok = s.substring_char(start, k).to_owned();
            let ghost prev = parts@;
            parts.push(tok);
            proof {
                assert(strs_view(parts@) =~= strs_view(prev).push(piece));
                assert(strs_view(prev).push(piece) =~= strs_view(prev) + seq![piece]);
            }
        }
        proof {
            lemma_filter_singleton(piece);
            if k < n {
                assert(split_at_char(rest, ' ') == seq![piece] + split_at_char(
                    s@.skip(k + 1),
                    ' ',
                ));
                Seq::filter_distributes_over_add(
                    seq![piece],
                    split_at_char(s@.skip(k + 1), ' '),
                    ne,
                );
            } else {
                assert(split_at_char(rest, ' ') =~= seq![piece]);
            }
        }
        if k == n {
            proof {
                assert(strs_view(parts@) + Seq::<Seq<char>>::empty() =~= strs_view(parts@));
            }
            return parts;
        }
        start = k + 1;
    }
}

// ---- style flags ----

pub open spec fn is_style_flag(c: char) -> bool {
    c == 'b' || c == 'i' || c == 'u' || c == 'c' || c == 'd' || c == 't' || c == 'h' || c == 'o'
        || c == 's' || c == 'n' || c == 'r'
}

/// The rendered assignment of one style flag.
pub open spec fn style_word(c: char) -> Seq<char> {
    if c == 'b' {
        "bold = true"@
    } else if c == 'i' {
        "italic = true"@
    } else if c == 'u' {
        "underline = true"@
    } else if c == 'c' {
        "undercurl = true"@
    } else if c == 'd' {
        "underdouble = true"@
    } else if c == 't' {
        "underdotted = true"@
    } else if c == 'h' {
        "underdashed = true"@
    } else if c == 'o' {
        "standout = true"@
    } else if c == 's' {
        "strikethrough = true"@
    } else if c == 'n' {
        "nocombine = true"@
    } else {
        "reverse = true"@
    }
}

/// The rendered assignments of a flag string, in input order, `-` standing
/// for none.
pub open spec fn style_words(s: Seq<char>) -> Seq<Seq<char>>
    decreases s.len(),
{
    if s.len() == 0 {
        Seq::<Seq<char>>::empty()
    } else {
        let rest = style_words(s.drop_first());
        if s[0] == '-' {
            rest
        } else {
            seq![style_word(s[0])] + rest
        }
    }
}

/// The first character that is neither a flag nor `-`, if any.
pub open spec fn first_bad_flag(s: Seq<char>) -> Option<char>
    decreases s.len(),
{
    if s.len() == 0 {
        None
    } else if !is_style_flag(s[0]) && s[0] != '-' {
        Some(s[0])
    } else {
        first_bad_flag(s.drop_first())
    }
}

/// Words joined by a comma and a blank.
pub open spec fn join_comma(ws: Seq<Seq<char>>) -> Seq<char>
    decreases ws.len(),
{
    if ws.len() == 0 {
        Seq::<char>::empty()
    } else if ws.len() == 1 {
        ws[0]
    } else {
        ws[0] + ", "@ + join_comma(ws.drop_first())
    }
}

proof fn lemma_style_words_push(a: Seq<char>, x: char)
    ensures
        style_words(a.push(x)) == style_words(a) + (if x == '-' {
            Seq::<Seq<char>>::empty()
        } else {
            seq![style_word(x)]
        }),
    decreases a.len(),
{
    let tail = if x == '-' {
        Seq::<Seq<char>>::empty()
    } else {
        seq![style_word(x)]
    };
    if a.len() == 0 {
        assert(a.push(x)[0] == x);
        assert(a.push(x).drop_first() =~= Seq::<char>::empty());
        assert(style_words(Seq::<char>::empty()) == Seq::<Seq<char>>::empty());
        assert(style_words(a.push(x).drop_first()) == Seq::<Seq<char>>::empty());
        if x == '-' {
            assert(style_words(a.push(x)) =~= Seq::<Seq<char>>::empty());
            assert(style_words(a) + tail =~= Seq::<Seq<char>>::empty());
        } else {
            assert(style_words(a.push(x)) =~= seq![style_word(x)]);
            assert(style_words(a) + tail =~= seq![style_word(x)]);
        }
    } else {
        assert(a.push(x)[0] == a[0]);
        assert(a.push(x).drop_first() =~= a.drop_first().push(x));
        lemma_style_words_push(a.drop_first(), x);
        if a[0] == '-' {
        } else {
            assert(seq![style_word(a[0])] + (style_words(a.drop_first()) + tail) =~= (seq![
                style_word(a[0]),
            ] + style_words(a.drop_first())) + tail);
        }
    }
}

proof fn lemma_first_bad_push(a: Seq<char>, x: char)
    requires
        first_bad_flag(a) is None,
    ensures
        first_bad_flag(a.push(x)) == (if !is_style_flag(x) && x != '-' {
            Some(x)
        } else {
            None::<char>
        }),
    decreases a.len(),
{
    if a.len() == 0 {
        assert(a.push(x)[0] == x);
        assert(a.push(x).drop_first() =~= Seq::<char>::empty());
        assert(first_bad_flag(Seq::<char>::empty()) is None);
        assert(first_bad_flag(a.push(x).drop_first()) is None);
    } else {
        assert(a.push(x)[0] == a[0]);
        assert(a.push(x).drop_first() =~= a.drop_first().push(x));
        lemma_first_bad_push(a.drop_first(), x);
    }
}

proof fn lemma_join_push(ws: Seq<Seq<char>>, w: Seq<char>)
    ensures
        join_comma(ws.push(w)) == (if ws.len() == 0 {
            w
        } else {
            join_comma(ws) + ", "@ + w
        }),
    decreases ws.len(),
{
    if ws.len() == 0 {
        assert(ws.push(w).len() == 1);
        assert(ws.push(w)[0] == w);
        assert(join_comma(ws.push(w)) == w);
    } else if ws.len() == 1 {
        assert(ws.push(w)[0] == ws[0]);
        assert(ws.push(w).drop_first() =~= seq![w]);
        assert(join_comma(seq![w]) == w);
        assert(join_comma(ws.push(w)) == ws[0] + ", "@ + w);
        assert(join_comma(ws) == ws[0]);
    } else {
        assert(ws.push(w)[0] == ws[0]);
        assert(ws.push(w).drop_first() =~= ws.drop_first().push(w));
        lemma_join_push(ws.drop_first(), w);
        assert(ws[0] + ", "@ + (join_comma(ws.drop_first()) + ", "@ + w) =~= (ws[0] + ", "@
            + join_comma(ws.drop_first())) + ", "@ + w);
    }
}

fn style_char_word(c: char) -> (r: Option<&'static str>)
    ensures
        r is Some <==> is_style_flag(c),
        r matches Some(w) ==> w@ == style_word(c),
{
    match c {
        'b' => Some("bold = true"),
        'i' => Some("italic = true"),
        'u' => Some("underline = true"),
        'c' => Some("undercurl = true"),
        'd' => Some("underdouble = true"),
        't' => Some("underdotted = true"),
        'h' => Some("underdashed = true"),
        'o' => Some("standout = true"),
        's' => Some("strikethrough = true"),
        'n' => Some("nocombine = true"),
        'r' => Some("reverse = true"),
        _ => None,
    }
}

/// Renders the style token: each flag becomes its assignment, in input
/// order, joined by commas; `-` contributes nothing; the first unknown
/// character fails, naming that character.
pub fn parse_style_options(style: &str) -> (r: Result<String, ThemeError>)
    ensures
        first_bad_flag(style@) matches Some(c) ==> (r matches Err(e) && e@
            == ErrSpec::UnknownStyleOption { option: seq![c] }),
        first_bad_flag(style@) is None ==> (r matches Ok(out) && out@ == join_comma(
            style_words(style@),
        )),
{
    let chars = to_chars(style);
    let n = chars.len();
    let mut out = String::new();
    let mut any = false;
    let mut i: usize = 0;
    proof {
        assert(style@.take(0) =~= Seq::<char>::empty());
    }
    while i < n
        invariant
            i <= n,
            n == style@.len(),
            chars@ == style@,
            first_bad_flag(style@.take(i as int)) is None,
            any == (style_words(style@.take(i as int)).len() > 0),
            out@ == join_comma(style_words(style@.take(i as int))),
        decreases n - i,
    {
        let c = chars[i];
        proof {
            assert(style@.take(i + 1) =~= style@.take(i as int).push(style@[i as int]));
            lemma_style_words_push(style@.take(i as int), style@[i as int]);
            lemma_first_bad_push(style@.take(i as int), style@[i as int]);
        }
        if c == '-' {
            i += 1;
            continue ;
        }
        match style_char_word(c) {
            Some(w) => {
                proof {
                    lemma_join_push(style_words(style@.take(i as int)), style_word(c));
                }
                if any {
                    out.append(", ");
                } else {
                    any = true;
                }
                out.append(w);
                proof {
                    if style_words(style@.take(i as int)).len() > 0 {
                        assert(out@ =~= join_comma(style_words(style@.take(i as int))) + ", "@
                            + style_word(c));
                    } else {
                        assert(out@ =~= style_word(c));
                    }
                    assert(style_words(style@.take(i + 1)) =~= style_words(
                        style@.take(i as int),
                    ).push(style_word(c)));
                }
            },
            None => {
                let bad = style.substring_char(i, i + 1).to_owned();
                proof {
                    assert(bad@ =~= seq![style@[i as int]]);
                    lemma_first_bad_stops(style@, i as int);
                }
                return Err(ThemeError::UnknownStyleOption { option: bad });
            },
        }
        i += 1;
    }
    proof {
        assert(style@.take(n as int) =~= style@);
    }
    Ok(out)
}

// ---- rendering one directive ----

/// A color position resolves to `NONE` for the literal `-`, else to the
/// hexadecimal text of the named palette entry.
pub open spec fn spec_lookup_highlight(value: Seq<char>, es: Seq<(Seq<char>, Color)>) -> Result<
    Seq<char>,
    ErrSpec,
> {
    if value == "-"@ {
        Ok("NONE"@)
    } else if entries_has_key(es, value) {
        Ok(entries_value(es, value).spec_hex())
    } else {
        Err(ErrSpec::MissingColor { color: value })
    }
}

/// The style token rendered, or the first unknown flag.
pub open spec fn spec_style_text(style: Seq<char>) -> Result<Seq<char>, ErrSpec> {
    match first_bad_flag(style) {
        Some(c) => Err(ErrSpec::UnknownStyleOption { option: seq![c] }),
        None => Ok(join_comma(style_words(style))),
    }
}

/// The rendered text of one highlight directive: one to four tokens give
/// foreground, background, style and special color; a single token holding
/// the link marker becomes a group link instead, its target taken verbatim.
/// Lookups run left to right, the style token last in the four-token form.
pub open spec fn spec_render_highlight(
    group: Seq<char>,
    value: Seq<char>,
    es: Seq<(Seq<char>, Color)>,
) -> Result<Seq<char>, ErrSpec> {
    let toks = split_spaces(value);
    if toks.len() == 1 {
        if contains_link(toks[0]) {
            Ok("\n    hl(0, \""@ + group + "\", { link = \""@ + remove_link(toks[0]) + "\" })"@)
        } else {
            match spec_lookup_highlight(toks[0], es) {
                Err(e) => Err(e),
                Ok(fg) => Ok(
                    "\n    hl(0, \""@ + group + "\", { fg = \""@ + fg + "\", bg = \"NONE\" })"@,
                ),
            }
        }
    } else if toks.len() == 2 {
        match spec_lookup_highlight(toks[0], es) {
            Err(e) => Err(e),
            Ok(fg) => match spec_lookup_highlight(toks[1], es) {
                Err(e) => Err(e),
                Ok(bg) => Ok(
                    "\n    hl(0, \""@ + group + "\", { fg = \""@ + fg + "\", bg = \""@ + bg
                        + "\" })"@,
                ),
            },
        }
    } else if toks.len() == 3 {
        match spec_lookup_highlight(toks[0], es) {
            Err(e) => Err(e),
            Ok(fg) => match spec_lookup_highlight(toks[1], es) {
                Err(e) => Err(e),
                Ok(bg) => match spec_style_text(toks[2]) {
                    Err(e) => Err(e),
                    Ok(st) => Ok(
                        "\n    hl(0, \""@ + group + "\", { fg = \""@ + fg + "\", bg = \""@ + bg
                            + "\", "@ + st + " })"@,
                    ),
                },
            },
        }
    } else if toks.len() == 4 {
        match spec_lookup_highlight(toks[0], es) {
            Err(e) => Err(e),
            Ok(fg) => match spec_lookup_highlight(toks[1], es) {
                Err(e) => Err(e),
                Ok(bg) => match spec_lookup_highlight(toks[3], es) {
                    Err(e) => Err(e),
                    Ok(sp) => match spec_style_text(toks[2]) {
                        Err(e) => Err(e),
                        Ok(st) => Ok(
                            "\n    hl(0, \""@ + group + "\", { fg = \""@ + fg + "\", bg = \""@
                                + bg + "\", sp = \""@ + sp + "\", "@ + st + " })"@,
                        ),
                    },
                },
            },
        }
    } else {
        Err(ErrSpec::InvalidHighlight { highlight: value })
    }
}

/// Resolves one color token.
pub fn lookup_highlight(value: &str, palette: &indexmap::IndexMap<String, Color>) -> (r: Result<
    String,
    ThemeError,
>)
    requires
        entries_keys_unique(palette_entries(*palette)),
    ensures
        match spec_lookup_highlight(value@, palette_entries(*palette)) {
            Ok(t) => r matches Ok(x) && x@ == t,
            Err(e) => r matches Err(x) && x@ == e,
        },
{
    let chars = to_chars(value);
    proof {
        reveal_strlit("-");
    }
    if chars.len() == 1 && chars[0] == '-' {
        proof {
            assert(value@ =~= "-"@);
        }
        return Ok("NONE".to_owned());
    }
    proof {
        if value@ == "-"@ {
            assert(value@.len() == 1 && value@[0] == '-');
            assert(false);
        }
    }
    match crate::format::lookup_color(value, palette) {
        Ok(c) => Ok(c.hex()),
        Err(e) => Err(e),
    }
}

/// Compiles one highlight directive into its rendered text.
pub fn parse_highlight(
    hl_group: &str,
    value: &str,
    palette: &indexmap::IndexMap<String, Color>,
) -> (r: Result<String, ThemeError>)
    requires
        entries_keys_unique(palette_entries(*palette)),
    ensures
        match spec_render_highlight(hl_group@, value@, palette_entries(*palette)) {
            Ok(t) => r matches Ok(x) && x@ == t,
            Err(e) => r matches Err(x) && x@ == e,
        },
{
    let ghost es = palette_entries(*palette);
    let toks = split_tokens(value);
    proof {
        assert forall|j: int| 0 <= j < toks@.len() implies strs_view(toks@)[j]
            == (#[trigger] toks@[j])@ by {}
    }
    if toks.len() == 1 {
        let (is_link, stripped) = replace_link(toks[0].as_str());
        if is_link {
            let mut out = String::new();
            out.append("\n    hl(0, \"");
            out.append(hl_group);
            out.append("\", { link = \"");
            out.append(stripped.as_str());
            out.append("\" })");
            proof {
                assert(out@ =~= "\n    hl(0, \""@ + hl_group@ + "\", { link = \""@ + remove_link(
                    toks@[0]@,
                ) + "\" })"@);
            }
            Ok(out)
        } else {
            match lookup_highlight(toks[0].as_str(), palette) {
                Err(e) => Err(e),
                Ok(fg) => {
                    let mut out = String::new();
                    out.append("\n    hl(0, \"");
                    out.append(hl_group);
                    out.append("\", { fg = \"");
                    out.append(fg.as_str());
                    out.append("\", bg = \"NONE\" })");
                    proof {
                        assert(out@ =~= "\n    hl(0, \""@ + hl_group@ + "\", { fg = \""@ + fg@
                            + "\", bg = \"NONE\" })"@);
                    }
                    Ok(out)
                },
            }
        }
    } else if toks.len() == 2 {
        let fg = match lookup_highlight(toks[0].as_str(), palette) {
            Err(e) => {
                return Err(e);
            },
            Ok(v) => v,
        };
        let bg = match lookup_highlight(toks[1].as_str(), palette) {
            Err(e) => {
                return Err(e);
            },
            Ok(v) => v,
        };
        let mut out = String::new();
        out.append("\n    hl(0, \"");
        out.append(hl_group);
        out.append("\", { fg = \"");
        out.append(fg.as_str());
        out.append("\", bg = \"");
        out.append(bg.as_str());
        out.append("\" })");
        proof {
            assert(out@ =~= "\n    hl(0, \""@ + hl_group@ + "\", { fg = \""@ + fg@ + "\", bg = \""@
                + bg@ + "\" })"@);
        }
        Ok(out)
    } else if toks.len() == 3 {
        let fg = match lookup_highlight(toks[0].as_str(), palette) {
            Err(e) => {
                return Err(e);
            },
            Ok(v) => v,
        };
        let bg = match lookup_highlight(toks[1].as_str(), palette) {
            Err(e) => {
                return Err(e);
            },
            Ok(v) => v,
        };
        let st = match parse_style_options(toks[2].as_str()) {
            Err(e) => {
                return Err(e);
            },
            Ok(v) => v,
        };
        let mut out = String::new();
        out.append("\n    hl(0, \"");
        out.append(hl_group);
        out.append("\", { fg = \"");
        out.append(fg.as_str());
        out.append("\", bg = \"");
        out.append(bg.as_str());
        out.append("\", ");
        out.append(st.as_str());
        out.append(" })");
        proof {
            assert(out@ =~= "\n    hl(0, \""@ + hl_group@ + "\", { fg = \""@ + fg@ + "\", bg = \""@
                + bg@ + "\", "@ + st@ + " })"@);
        }
        Ok(out)
    } else if toks.len() == 4 {
        let fg = match lookup_highlight(toks[0].as_str(), palette) {
            Err(e) => {
                return Err(e);
            },
            Ok(v) => v,
        };
        let bg = match lookup_highlight(toks[1].as_str(), palette) {
            Err(e) => {
                return Err(e);
            },
            Ok(v) => v,
        };
        let sp = match lookup_highlight(toks[3].as_str(), palette) {
            Err(e) => {
                return Err(e);
            },
            Ok(v) => v,
        };
        let st = match parse_style_options(toks[2].as_str()) {
            Err(e) => {
                return Err(e);
            },
            Ok(v) => v,
        };
        let mut out = String::new();
        out.append("\n    hl(0, \"");
        out.append(hl_group);
        out.append("\", { fg = \"");
        out.append(fg.as_str());
        out.append("\", bg = \"");
        out.append(bg.as_str());
        out.append("\", sp = \"");
        out.append(sp.as_str());
        out.append("\", ");
        out.append(st.as_str());
        out.append(" })");
        proof {
            assert(out@ =~= "\n    hl(0, \""@ + hl_group@ + "\", { fg = \""@ + fg@ + "\", bg = \""@
                + bg@ + "\", sp = \""@ + sp@ + "\", "@ + st@ + " })"@);
        }
        Ok(out)
    } else {
        Err(ThemeError::InvalidHighlight { highlight: value.to_owned() })
    }
}

/// A clean prefix pins the first bad flag at the first bad position.
proof fn lemma_first_bad_stops(s: Seq<char>, i: int)
    requires
        0 <= i < s.len(),
        first_bad_flag(s.take(i)) is None,
        !is_style_flag(s[i]),
        s[i] != '-',
    ensures
        first_bad_flag(s) == Some(s[i]),
    decreases i,
{
    if i == 0 {
    } else {
        assert(s.take(i)[0] == s[0]);
        assert(s.take(i).drop_first() =~= s.drop_first().take(i - 1));
        lemma_first_bad_stops(s.drop_first(), i - 1);
    }
}

} // verus!
