//! Colors, and how they are written in the environment.

use vstd::prelude::*;
use vstd::string::*;
use vstd::utf8::*;

verus! {

/// The channel value of full intensity. It is a multiple both of 255 and of 1000,
/// so that channels written in either unit are exact.
pub const FULL: u32 = 51_000;

/// A color. Each channel runs from 0 to [`FULL`].
#[derive(Clone, Copy, Debug, PartialEq, Eq, Structural)]
pub struct Color {
    pub r: u32,
    pub g: u32,
    pub b: u32,
}

impl Color {
    /// Whether no channel exceeds full intensity.
    pub open spec fn in_gamut(self) -> bool {
        self.r <= FULL && self.g <= FULL && self.b <= FULL
    }
}

/// The color with channels in 255ths of full intensity.
pub open spec fn color_of_bytes(r: int, g: int, b: int) -> Color {
    Color { r: (200 * r) as u32, g: (200 * g) as u32, b: (200 * b) as u32 }
}

/// The color with channels in thousandths of full intensity.
pub open spec fn color_of_thousandths(r: int, g: int, b: int) -> Color {
    Color { r: (51 * r) as u32, g: (51 * g) as u32, b: (51 * b) as u32 }
}

fn from_bytes(r: u8, g: u8, b: u8) -> (c: Color)
    ensures
        c == color_of_bytes(r as int, g as int, b as int),
        255 * c.r == FULL * r,
        255 * c.g == FULL * g,
        255 * c.b == FULL * b,
{
    Color { r: 200 * (r as u32), g: 200 * (g as u32), b: 200 * (b as u32) }
}

fn from_thousandths(r: u32, g: u32, b: u32) -> (c: Color)
    requires
        r <= 1000,
        g <= 1000,
        b <= 1000,
    ensures
        c == color_of_thousandths(r as int, g as int, b as int),
        1000 * c.r == FULL * r,
        1000 * c.g == FULL * g,
        1000 * c.b == FULL * b,
{
    Color { r: 51 * r, g: 51 * g, b: 51 * b }
}

/// Whether a character has the Unicode property `White_Space`.
pub open spec fn white_space(c: char) -> bool {
    let u = c as u32;
    ||| 0x9 <= u <= 0xd
    ||| u == 0x20
    ||| u == 0x85
    ||| u == 0xa0
    ||| u == 0x1680
    ||| 0x2000 <= u <= 0x200a
    ||| u == 0x2028
    ||| u == 0x2029
    ||| u == 0x202f
    ||| u == 0x205f
    ||| u == 0x3000
}

fn is_white_space(c: char) -> (r: bool)
    ensures
        r == white_space(c),
{
    let u: u32 = c as u32;
    (0x9 <= u && u <= 0xd) || u == 0x20 || u == 0x85 || u == 0xa0 || u == 0x1680 || (0x2000 <= u && u
        <= 0x200a) || u == 0x2028 || u == 0x2029 || u == 0x202f || u == 0x205f || u == 0x3000
}

/// The text without the characters at its start that satisfy `f`.
pub open spec fn trim_start(s: Seq<char>, f: spec_fn(char) -> bool) -> Seq<char>
    decreases s.len(),
{
    if s.len() > 0 && f(s[0]) {
        trim_start(s.drop_first(), f)
    } else {
        s
    }
}

/// The text without the characters at its end that satisfy `f`.
pub open spec fn trim_end(s: Seq<char>, f: spec_fn(char) -> bool) -> Seq<char>
    decreases s.len(),
{
    if s.len() > 0 && f(s.last()) {
        trim_end(s.drop_last(), f)
    } else {
        s
    }
}

/// What remains of a written color without surrounding white space and then
/// without the number signs at its start.
pub open spec fn bare(s: Seq<char>) -> Seq<char> {
    trim_start(
        trim_end(trim_start(s, |c: char| white_space(c)), |c: char| white_space(c)),
        |c: char| c == '#',
    )
}

/// The value of a hexadecimal digit, of either case.
pub open spec fn digit(b: u8) -> Option<int> {
    if 48 <= b <= 57 {
        Some(b - 48)
    } else if 65 <= b <= 70 {
        Some(b - 55)
    } else if 97 <= b <= 102 {
        Some(b - 87)
    } else {
        None
    }
}

/// The value of two bytes that are hexadecimal digits. A plus sign may stand in
/// place of the first digit.
pub open spec fn channel(b0: u8, b1: u8) -> Option<int> {
    match (digit(b0), digit(b1)) {
        (Some(high), Some(low)) => Some(16 * high + low),
        (None, Some(low)) => if b0 == 43 {
            Some(low)
        } else {
            None
        },
        _ => None,
    }
}

/// What a text is, read as a color.
#[derive(Clone, Copy, Debug, PartialEq, Eq, Structural)]
pub enum Reading {
    /// A color.
    Color(Color),
    /// Not a color.
    NotAColor,
    /// Six bytes that cannot be cut into two-byte channels, for a character lies
    /// across a cut.
    Uncuttable,
}

/// What six bytes are, read as three channels of two bytes, the first one first.
pub open spec fn reading_of_bytes(bytes: Seq<u8>) -> Reading {
    if bytes.len() != 6 {
        Reading::NotAColor
    } else if !is_char_boundary(bytes, 2) {
        Reading::Uncuttable
    } else if channel(bytes[0], bytes[1]) is None {
        Reading::NotAColor
    } else if !is_char_boundary(bytes, 4) {
        Reading::Uncuttable
    } else {
        match (channel(bytes[2], bytes[3]), channel(bytes[4], bytes[5])) {
            (Some(g), Some(b)) => Reading::Color(
                color_of_bytes(channel(bytes[0], bytes[1])->0, g, b),
            ),
            _ => Reading::NotAColor,
        }
    }
}

/// What a text is, read as a color.
pub open spec fn reading(s: Seq<char>) -> Reading {
    reading_of_bytes(encode_utf8(bare(s)))
}

/// The color that a text is, if it is one.
pub open spec fn color_in(s: Seq<char>) -> Option<Color> {
    match reading(s) {
        Reading::Color(c) => Some(c),
        _ => None,
    }
}

proof fn lemma_trim_start(s: Seq<char>, f: spec_fn(char) -> bool, k: int)
    requires
        0 <= k <= s.len(),
        forall|i: int| 0 <= i < k ==> f(#[trigger] s[i]),
        k < s.len() ==> !f(s[k]),
    ensures
        trim_start(s, f) == s.skip(k),
    decreases k,
{
    if k > 0 {
        assert(f(s[0]));
        let rest = s.drop_first();
        assert forall|i: int| 0 <= i < k - 1 implies f(#[trigger] rest[i]) by {
            assert(f(s[i + 1]));
        }
        lemma_trim_start(rest, f, k - 1);
        assert(rest.skip(k - 1) =~= s.skip(k));
    } else {
        assert(s.skip(0) =~= s);
    }
}

proof fn lemma_trim_end(s: Seq<char>, f: spec_fn(char) -> bool, k: int)
    requires
        0 <= k <= s.len(),
        forall|i: int| k <= i < s.len() ==> f(#[trigger] s[i]),
        0 < k ==> !f(s[k - 1]),
    ensures
        trim_end(s, f) == s.take(k),
    decreases s.len(),
{
    if k < s.len() {
        assert(f(s.last()));
        lemma_trim_end(s.drop_last(), f, k);
        assert(s.drop_last().take(k) =~= s.take(k));
    } else {
        assert(s.take(k) =~= s);
    }
}

fn characters(s: &str) -> (v: Vec<char>)
    ensures
        v@ == s@,
{
    let mut v: Vec<char> = Vec::new();
    for c in it: s.chars()
        invariant
            it.seq() == s@,
            v@ == s@.take(it.index()),
    {
        v.push(c);
        assert(s@.take(it.index()).push(c) =~= s@.take(it.index() + 1));
    }
    assert(s@.take(s@.len() as int) =~= s@);
    v
}

/// The part of a written color that [`bare`] describes.
fn bare_part(s: &str) -> (r: &str)
    ensures
        r@ == bare(s@),
{
    let chars: Vec<char> = characters(s);
    let n: usize = chars.len();
    let mut from: usize = 0;
    while from < n && is_white_space(chars[from])
        invariant
            n == chars@.len(),
            from <= n,
            forall|i: int| 0 <= i < from ==> white_space(#[trigger] chars@[i]),
        decreases n - from,
    {
        from = from + 1;
    }
    let ghost start = from as int;
    let mut to: usize = n;
    while from < to && is_white_space(chars[to - 1])
        invariant
            n == chars@.len(),
            from <= to <= n,
            forall|i: int| to <= i < n ==> white_space(#[trigger] chars@[i]),
        decreases to,
    {
        to = to - 1;
    }
    while from < to && chars[from] == '#'
        invariant
            n == chars@.len(),
            start <= from <= to <= n,
            forall|i: int| start <= i < from ==> #[trigger] chars@[i] == '#',
        decreases to - from,
    {
        from = from + 1;
    }
    proof {
        let ws = |c: char| white_space(c);
        let sign = |c: char| c == '#';
        let text = s@;
        lemma_trim_start(text, ws, start);
        let tail = text.skip(start);
        assert forall|i: int| to - start <= i < tail.len() implies ws(#[trigger] tail[i]) by {
            assert(white_space(chars@[i + start]));
        }
        lemma_trim_end(tail, ws, to - start);
        let middle = tail.take(to - start);
        assert forall|i: int| 0 <= i < from - start implies sign(#[trigger] middle[i]) by {
            assert(chars@[i + start] == '#');
        }
        lemma_trim_start(middle, sign, from - start);
        assert(middle.skip(from - start) =~= text.subrange(from as int, to as int));
    }
    s.substring_char(from, to)
}

fn digit_value(b: u8) -> (r: Option<u8>)
    ensures
        r is Some <==> digit(b) is Some,
        r is Some ==> r->0 == digit(b)->0 && r->0 < 16,
{
    if 48 <= b && b <= 57 {
        Some(b - 48)
    } else if 65 <= b && b <= 70 {
        Some(b - 55)
    } else if 97 <= b && b <= 102 {
        Some(b - 87)
    } else {
        None
    }
}

fn channel_value(b0: u8, b1: u8) -> (r: Option<u8>)
    ensures
        r is Some <==> channel(b0, b1) is Some,
        r is Some ==> r->0 == channel(b0, b1)->0,
{
    match (digit_value(b0), digit_value(b1)) {
        (Some(high), Some(low)) => Some(16 * high + low),
        (None, Some(low)) => if b0 == 43 {
            Some(low)
        } else {
            None
        },
        _ => None,
    }
}

/// Reads a text as a color.
pub fn read_color(s: &str) -> (r: Reading)
    ensures
        r == reading(s@),
{
    let hex: &str = bare_part(s);
    let bytes: &[u8] = hex.as_bytes();
    if bytes.len() != 6 {
        return Reading::NotAColor;
    }
    if !hex.is_char_boundary(2) {
        return Reading::Uncuttable;
    }
    let r: u8 = match channel_value(bytes[0], bytes[1]) {
        Some(v) => v,
        None => {
            return Reading::NotAColor;
        },
    };
    if !hex.is_char_boundary(4) {
        return Reading::Uncuttable;
    }
    match (channel_value(bytes[2], bytes[3]), channel_value(bytes[4], bytes[5])) {
        (Some(g), Some(b)) => Reading::Color(from_bytes(r, g, b)),
        _ => Reading::NotAColor,
    }
}

/// The color written as six hexadecimal digits, with or without number signs
/// before and white space around it.
pub fn parse_hex_color(hex: &str) -> (r: Option<Color>)
    requires
        reading(hex@) != Reading::Uncuttable,
    ensures
        r == color_in(hex@),
{
    match read_color(hex) {
        Reading::Color(c) => Some(c),
        _ => None,
    }
}

/// The parts of a text between its commas.
pub open spec fn split_commas(s: Seq<char>) -> Seq<Seq<char>>
    decreases s.len(),
{
    if s.len() == 0 {
        seq![Seq::empty()]
    } else {
        let parts = split_commas(s.drop_last());
        if s.last() == ',' {
            parts.push(Seq::empty())
        } else {
            parts.drop_last().push(parts.last().push(s.last()))
        }
    }
}

/// The colors among some texts, in order.
pub open spec fn colors_among(parts: Seq<Seq<char>>) -> Seq<Color>
    decreases parts.len(),
{
    if parts.len() == 0 {
        Seq::empty()
    } else {
        let colors = colors_among(parts.drop_last());
        match color_in(parts.last()) {
            Some(c) => colors.push(c),
            None => colors,
        }
    }
}

/// Whether each of some texts can be read.
pub open spec fn all_cuttable(parts: Seq<Seq<char>>) -> bool {
    forall|i: int| 0 <= i < parts.len() ==> reading(#[trigger] parts[i]) != Reading::Uncuttable
}

/// Reads one more part of a list.
fn read_part(part: &str, colors: &mut Vec<Color>, cuttable: bool, done: Ghost<Seq<Seq<char>>>) -> (r:
    bool)
    requires
        old(colors)@ == colors_among(done@),
        cuttable == all_cuttable(done@),
    ensures
        final(colors)@ == colors_among(done@.push(part@)),
        r == all_cuttable(done@.push(part@)),
{
    let ghost parts = done@.push(part@);
    assert(parts.drop_last() =~= done@);
    assert(forall|j: int| 0 <= j < done@.len() ==> parts[j] == done@[j]);
    assert(parts[done@.len() as int] == part@);
    match read_color(part) {
        Reading::Color(c) => {
            colors.push(c);
            cuttable
        },
        Reading::NotAColor => cuttable,
        Reading::Uncuttable => false,
    }
}

/// Reads a list of colors separated by commas: the colors in it, and whether
/// every part could be read.
fn read_list(s: &str) -> (r: (Vec<Color>, bool))
    ensures
        r.0@ == colors_among(split_commas(s@)),
        r.1 == all_cuttable(split_commas(s@)),
{
    let chars: Vec<char> = characters(s);
    let n: usize = chars.len();
    let mut colors: Vec<Color> = Vec::new();
    let mut cuttable: bool = true;
    let mut start: usize = 0;
    let mut i: usize = 0;
    let ghost mut done: Seq<Seq<char>> = Seq::empty();
    assert(s@.subrange(0, 0) =~= Seq::<char>::empty());
    assert(split_commas(s@.take(0)) =~= done.push(s@.subrange(0, 0)));
    while i < n
        invariant
            chars@ == s@,
            n == chars@.len(),
            start <= i <= n,
            split_commas(s@.take(i as int)) == done.push(s@.subrange(start as int, i as int)),
            colors@ == colors_among(done),
            cuttable == all_cuttable(done),
        decreases n - i,
    {
        let ghost part = s@.subrange(start as int, i as int);
        assert(s@.take(i + 1).drop_last() =~= s@.take(i as int));
        if chars[i] == ',' {
            cuttable = read_part(s.substring_char(start, i), &mut colors, cuttable, Ghost(done));
            start = i + 1;
            proof {
                done = done.push(part);
                assert(s@.subrange(i + 1, i + 1) =~= Seq::<char>::empty());
            }
        } else {
            assert(done.push(part).drop_last() =~= done);
            assert(part.push(s@[i as int]) =~= s@.subrange(start as int, i + 1));
        }
        i = i + 1;
    }
    assert(s@.take(n as int) =~= s@);
    cuttable = read_part(s.substring_char(start, n), &mut colors, cuttable, Ghost(done));
    (colors, cuttable)
}

/// The foreground colors where the environment names none.
pub open spec fn default_foreground() -> Seq<Color> {
    seq![
        color_of_thousandths(984, 286, 204),
        color_of_thousandths(596, 592, 102),
        color_of_thousandths(988, 694, 349),
        color_of_thousandths(514, 647, 596),
        color_of_thousandths(827, 525, 608),
        color_of_thousandths(557, 753, 486),
        color_of_thousandths(894, 827, 529),
    ]
}

/// The background color where the environment names none.
pub open spec fn default_background() -> Color {
    color_of_thousandths(114, 122, 137)
}

/// The foreground colors that a setting asks for: those in its list, or the
/// default ones where there is no setting or no color in it.
pub open spec fn foreground(setting: Option<&str>) -> Seq<Color> {
    match setting {
        Some(list) => if colors_among(split_commas(list@)).len() > 0 {
            colors_among(split_commas(list@))
        } else {
            default_foreground()
        },
        None => default_foreground(),
    }
}

/// The background color that a setting asks for, or the default one where there
/// is no setting or it is no color.
pub open spec fn background(setting: Option<&str>) -> Color {
    match setting {
        Some(text) => match color_in(text@) {
            Some(c) => c,
            None => default_background(),
        },
        None => default_background(),
    }
}

/// Whether the settings can be read, every part of the foreground list and the
/// background.
pub open spec fn readable(fg: Option<&str>, bg: Option<&str>) -> bool {
    &&& fg is Some ==> all_cuttable(split_commas(fg->0@))
    &&& bg is Some ==> reading(bg->0@) != Reading::Uncuttable
}

/// Whether [`colors_from_env`] takes these settings.
pub fn env_readable(fg: Option<&str>, bg: Option<&str>) -> (r: bool)
    ensures
        r == readable(fg, bg),
{
    let list: bool = match fg {
        Some(s) => read_list(s).1,
        None => true,
    };
    let single: bool = match bg {
        Some(s) => match read_color(s) {
            Reading::Uncuttable => false,
            _ => true,
        },
        None => true,
    };
    list && single
}

/// The foreground colors and the background color, from the values of the two
/// environment variables.
pub fn colors_from_env(fg: Option<&str>, bg: Option<&str>) -> (r: (Vec<Color>, Color))
    requires
        readable(fg, bg),
    ensures
        r.0@ == foreground(fg),
        r.1 == background(bg),
        r.0@.len() > 0,
{
    let default_fg: Vec<Color> = vec![
        from_thousandths(984, 286, 204),
        from_thousandths(596, 592, 102),
        from_thousandths(988, 694, 349),
        from_thousandths(514, 647, 596),
        from_thousandths(827, 525, 608),
        from_thousandths(557, 753, 486),
        from_thousandths(894, 827, 529),
    ];
    assert(default_fg@ =~= default_foreground());
    let default_bg: Color = from_thousandths(114, 122, 137);
    let colors: Vec<Color> = match fg {
        Some(s) => {
            let listed: Vec<Color> = read_list(s).0;
            if listed.len() == 0 {
                default_fg
            } else {
                listed
            }
        },
        None => default_fg,
    };
    let ground: Color = match bg {
        Some(s) => match parse_hex_color(s) {
            Some(c) => c,
            None => default_bg,
        },
        None => default_bg,
    };
    (colors, ground)
}

/// Whether a character is a hexadecimal digit.
pub open spec fn is_digit(c: char) -> bool {
    '\0' <= c <= '\u{7f}' && digit(c as u8) is Some
}

/// The value of a character that is a hexadecimal digit.
pub open spec fn digit_of(c: char) -> int {
    digit(c as u8)->0
}

/// Six hexadecimal digits, of either case, are the color with these channels.
pub proof fn lemma_six_digits(s: Seq<char>)
    requires
        s.len() == 6,
        forall|i: int| 0 <= i < 6 ==> is_digit(#[trigger] s[i]),
    ensures
        color_in(s) == Some(
            color_of_bytes(
                16 * digit_of(s[0]) + digit_of(s[1]),
                16 * digit_of(s[2]) + digit_of(s[3]),
                16 * digit_of(s[4]) + digit_of(s[5]),
            ),
        ),
{
    assert(is_digit(s[0]) && is_digit(s[1]) && is_digit(s[2]) && is_digit(s[3]) && is_digit(s[4])
        && is_digit(s[5]));
    assert(s[0] as u32 == s[0] as u8 && s[5] as u32 == s[5] as u8);
    lemma_trim_start(s, |c: char| white_space(c), 0);
    assert(s.skip(0) =~= s);
    lemma_trim_end(s, |c: char| white_space(c), 6);
    assert(s.take(6) =~= s);
    lemma_trim_start(s, |c: char| c == '#', 0);
    assert(bare(s) == s);
    let bytes = encode_utf8(s);
    assert(is_ascii_chars(s));
    is_ascii_chars_encode_utf8(s);
    assert(bytes.len() == 6);
    assert(bytes[0] == s[0] as u8 && bytes[1] == s[1] as u8 && bytes[2] == s[2] as u8);
    assert(bytes[3] == s[3] as u8 && bytes[4] == s[4] as u8 && bytes[5] == s[5] as u8);
    encode_utf8_valid_utf8(s);
    is_char_boundary_iff_not_is_continuation_byte(bytes, 2);
    is_char_boundary_iff_not_is_continuation_byte(bytes, 4);
}

/// White space around a color and number signs before it make no difference.
pub proof fn lemma_decoration_ignored(
    before: Seq<char>,
    signs: Seq<char>,
    core: Seq<char>,
    after: Seq<char>,
)
    requires
        forall|i: int| 0 <= i < before.len() ==> white_space(#[trigger] before[i]),
        forall|i: int| 0 <= i < signs.len() ==> #[trigger] signs[i] == '#',
        forall|i: int| 0 <= i < after.len() ==> white_space(#[trigger] after[i]),
        core.len() > 0,
        !white_space(core[0]),
        !white_space(core.last()),
        core[0] != '#',
    ensures
        reading(before + signs + core + after) == reading(core),
{
    let ws = |c: char| white_space(c);
    let sign = |c: char| c == '#';
    let text = before + signs + core + after;
    let written = signs + core;
    assert forall|i: int| 0 <= i < before.len() implies ws(#[trigger] text[i]) by {
        assert(text[i] == before[i]);
    }
    lemma_trim_start(text, ws, before.len() as int);
    let tail = text.skip(before.len() as int);
    assert(tail =~= written + after);
    assert forall|i: int| written.len() <= i < tail.len() implies ws(#[trigger] tail[i]) by {
        assert(tail[i] == after[i - written.len()]);
    }
    assert(tail[written.len() - 1] == core.last());
    lemma_trim_end(tail, ws, written.len() as int);
    assert(tail.take(written.len() as int) =~= written);
    lemma_trim_start(written, sign, signs.len() as int);
    assert(written.skip(signs.len() as int) =~= core);
    lemma_trim_start(core, ws, 0);
    assert(core.skip(0) =~= core);
    lemma_trim_end(core, ws, core.len() as int);
    assert(core.take(core.len() as int) =~= core);
    lemma_trim_start(core, sign, 0);
}

proof fn lemma_split_nonempty(s: Seq<char>)
    ensures
        split_commas(s).len() > 0,
    decreases s.len(),
{
    if s.len() > 0 {
        lemma_split_nonempty(s.drop_last());
    }
}

/// The parts of two lists with a comma between them are those of the first, then
/// those of the second.
pub proof fn lemma_lists_concatenate(a: Seq<char>, b: Seq<char>)
    ensures
        split_commas(a.push(',') + b) == split_commas(a) + split_commas(b),
    decreases b.len(),
{
    let joined = a.push(',') + b;
    lemma_split_nonempty(b);
    if b.len() == 0 {
        assert(joined =~= a.push(','));
        assert(joined.drop_last() =~= a);
        assert(split_commas(joined) =~= split_commas(a) + split_commas(b));
    } else {
        lemma_lists_concatenate(a, b.drop_last());
        lemma_split_nonempty(b.drop_last());
        assert(joined.drop_last() =~= a.push(',') + b.drop_last());
        assert(split_commas(joined) =~= split_commas(a) + split_commas(b));
    }
}

/// The colors in two lists with a comma between them are those of the first,
/// then those of the second.
pub proof fn lemma_list_colors_concatenate(a: Seq<char>, b: Seq<char>)
    ensures
        colors_among(split_commas(a.push(',') + b)) == colors_among(split_commas(a))
            + colors_among(split_commas(b)),
{
    lemma_lists_concatenate(a, b);
    lemma_colors_among_concatenate(split_commas(a), split_commas(b));
}

proof fn lemma_colors_among_concatenate(a: Seq<Seq<char>>, b: Seq<Seq<char>>)
    ensures
        colors_among(a + b) == colors_among(a) + colors_among(b),
    decreases b.len(),
{
    if b.len() == 0 {
        assert(a + b =~= a);
        assert(colors_among(a + b) =~= colors_among(a) + colors_among(b));
    } else {
        lemma_colors_among_concatenate(a, b.drop_last());
        assert((a + b).drop_last() =~= a + b.drop_last());
        assert(colors_among(a + b) =~= colors_among(a) + colors_among(b));
    }
}

/// A text without a comma is a list of one part, itself.
pub proof fn lemma_single_part(s: Seq<char>)
    requires
        forall|i: int| 0 <= i < s.len() ==> #[trigger] s[i] != ',',
    ensures
        split_commas(s) == seq![s],
    decreases s.len(),
{
    if s.len() == 0 {
        assert(s =~= Seq::empty());
    } else {
        lemma_single_part(s.drop_last());
        assert(s.drop_last().push(s.last()) =~= s);
        assert(split_commas(s) =~= seq![s]);
    }
}

proof fn lemma_color_in_gamut(s: Seq<char>)
    ensures
        color_in(s) is Some ==> color_in(s)->0.in_gamut(),
{
}

proof fn lemma_colors_among_in_gamut(parts: Seq<Seq<char>>)
    ensures
        forall|i: int|
            0 <= i < colors_among(parts).len() ==> (#[trigger] colors_among(parts)[i]).in_gamut(),
    decreases parts.len(),
{
    if parts.len() > 0 {
        let colors = colors_among(parts.drop_last());
        lemma_colors_among_in_gamut(parts.drop_last());
        lemma_color_in_gamut(parts.last());
        assert forall|i: int| 0 <= i < colors_among(parts).len() implies (#[trigger] colors_among(
            parts,
        )[i]).in_gamut() by {
            if i < colors.len() {
                assert(colors_among(parts)[i] == colors[i]);
            }
        }
    }
}

/// Whatever the settings say, there is a foreground color, and no channel of any
/// color exceeds full intensity.
pub proof fn lemma_settings_in_gamut(fg: Option<&str>, bg: Option<&str>)
    ensures
        foreground(fg).len() > 0,
        forall|i: int| 0 <= i < foreground(fg).len() ==> (#[trigger] foreground(fg)[i]).in_gamut(),
        background(bg).in_gamut(),
{
    if fg is Some {
        lemma_colors_among_in_gamut(split_commas(fg->0@));
    }
    if bg is Some {
        lemma_color_in_gamut(bg->0@);
    }
}

/// A channel given in 255ths of full intensity is exactly that share of it, and so
/// is one given in thousandths.
pub proof fn lemma_channel_shares(r: int, g: int, b: int)
    ensures
        0 <= r <= 255 && 0 <= g <= 255 && 0 <= b <= 255 ==> {
            let c = color_of_bytes(r, g, b);
            255 * c.r == FULL * r && 255 * c.g == FULL * g && 255 * c.b == FULL * b
        },
        0 <= r <= 1000 && 0 <= g <= 1000 && 0 <= b <= 1000 ==> {
            let c = color_of_thousandths(r, g, b);
            1000 * c.r == FULL * r && 1000 * c.g == FULL * g && 1000 * c.b == FULL * b
        },
{
}

/// The hexadecimal digits are `0` to `9`, `A` to `F` and `a` to `f`, with the values
/// 0 to 15, and no other byte is one.
pub proof fn lemma_digit_values(b: u8, value: int)
    requires
        0 <= value < 16,
    ensures
        digit(b) == Some(value) <==> if value < 10 {
            b == 0x30 + value
        } else {
            b == 0x41 + value - 10 || b == 0x61 + value - 10
        },
        digit(b) is Some ==> 0 <= digit(b)->0 < 16,
{
}

/// Two bytes are a channel where the second is a digit and the first is a digit or a
/// plus sign. Of the value, the second byte gives the lower four bits and a digit in
/// the first place the upper four.
pub proof fn lemma_channel_bytes(b0: u8, b1: u8)
    ensures
        channel(b0, b1) is Some <==> digit(b1) is Some && (digit(b0) is Some || b0 == 0x2b),
        channel(b0, b1) is Some ==> channel(b0, b1)->0 % 16 == digit(b1)->0,
        channel(b0, b1) is Some && digit(b0) is Some ==> channel(b0, b1)->0 / 16 == digit(b0)->0,
        channel(b0, b1) is Some && b0 == 0x2b ==> channel(b0, b1)->0 < 16,
        channel(b0, b1) is Some ==> 0 <= channel(b0, b1)->0 <= 255,
{
}

/// White space is each of these characters and no other.
pub proof fn lemma_white_space(c: char)
    ensures
        white_space(c) <==> seq![
            0x09int,
            0x0a,
            0x0b,
            0x0c,
            0x0d,
            0x20,
            0x85,
            0xa0,
            0x1680,
            0x2000,
            0x2001,
            0x2002,
            0x2003,
            0x2004,
            0x2005,
            0x2006,
            0x2007,
            0x2008,
            0x2009,
            0x200a,
            0x2028,
            0x2029,
            0x202f,
            0x205f,
            0x3000,
        ].contains(c as int),
{
    let spaces = seq![
        0x09int,
        0x0a,
        0x0b,
        0x0c,
        0x0d,
        0x20,
        0x85,
        0xa0,
        0x1680,
        0x2000,
        0x2001,
        0x2002,
        0x2003,
        0x2004,
        0x2005,
        0x2006,
        0x2007,
        0x2008,
        0x2009,
        0x200a,
        0x2028,
        0x2029,
        0x202f,
        0x205f,
        0x3000,
    ];
    let u = c as int;
    if white_space(c) {
        let i: int = if u <= 0x0d {
            u - 0x09
        } else if u == 0x20 {
            5
        } else if u == 0x85 {
            6
        } else if u == 0xa0 {
            7
        } else if u == 0x1680 {
            8
        } else if u <= 0x200a {
            u - 0x2000 + 9
        } else if u == 0x2028 {
            20
        } else if u == 0x2029 {
            21
        } else if u == 0x202f {
            22
        } else if u == 0x205f {
            23
        } else {
            24
        };
        assert(spaces[i] == u);
    }
}

/// What remains of a text lies between the white space at both ends, from the first
/// character there that is no number sign.
pub proof fn lemma_bare_part(s: Seq<char>, start: int, from: int, to: int)
    requires
        0 <= start <= from <= to <= s.len(),
        forall|i: int| 0 <= i < start ==> white_space(#[trigger] s[i]),
        start < s.len() ==> !white_space(s[start]),
        forall|i: int| to <= i < s.len() ==> white_space(#[trigger] s[i]),
        start < to ==> !white_space(s[to - 1]),
        forall|i: int| start <= i < from ==> #[trigger] s[i] == '#',
        from < to ==> s[from] != '#',
    ensures
        bare(s) == s.subrange(from, to),
{
    let ws = |c: char| white_space(c);
    let sign = |c: char| c == '#';
    lemma_trim_start(s, ws, start);
    let tail = s.skip(start);
    lemma_trim_end(tail, ws, to - start);
    let middle = tail.take(to - start);
    lemma_trim_start(middle, sign, from - start);
    assert(middle.skip(from - start) =~= s.subrange(from, to));
}

/// A text is a color exactly where what remains of it is six bytes, three channels of
/// two bytes each. Red, green and blue are then, in this order, their values in 255ths
/// of full intensity.
pub proof fn lemma_color_of_channels(s: Seq<char>)
    ensures
        ({
            let bytes = encode_utf8(bare(s));
            &&& color_in(s) is Some <==> bytes.len() == 6 && channel(bytes[0], bytes[1]) is Some
                && channel(bytes[2], bytes[3]) is Some && channel(bytes[4], bytes[5]) is Some
            &&& color_in(s) is Some ==> {
                let c = color_in(s)->0;
                &&& 255 * c.r == FULL * channel(bytes[0], bytes[1])->0
                &&& 255 * c.g == FULL * channel(bytes[2], bytes[3])->0
                &&& 255 * c.b == FULL * channel(bytes[4], bytes[5])->0
            }
        }),
{
    let bytes = encode_utf8(bare(s));
    encode_utf8_valid_utf8(bare(s));
    if bytes.len() == 6 {
        is_char_boundary_iff_not_is_continuation_byte(bytes, 2);
        is_char_boundary_iff_not_is_continuation_byte(bytes, 4);
    }
}

/// A text cannot be read exactly where what remains of it is six bytes, and a
/// character lies across the first cut, or across the second after a first channel
/// that is one.
pub proof fn lemma_unreadable(s: Seq<char>)
    ensures
        ({
            let bytes = encode_utf8(bare(s));
            reading(s) == Reading::Uncuttable <==> bytes.len() == 6 && (!is_char_boundary(bytes, 2)
                || channel(bytes[0], bytes[1]) is Some && !is_char_boundary(bytes, 4))
        }),
        color_in(s) is Some <==> reading(s) is Color,
        color_in(s) is Some ==> reading(s) == Reading::Color(color_in(s)->0),
{
}

/// Six hexadecimal digits, of either case, are a color. Each channel is the share of
/// full intensity that its own two digits make in 255ths: red the first two, green
/// the next, blue the last.
pub proof fn lemma_six_digit_channels(s: Seq<char>, d: Seq<int>)
    requires
        s.len() == 6,
        d.len() == 6,
        forall|i: int| 0 <= i < 6 ==> 0 <= #[trigger] d[i] < 16,
        forall|i: int|
            0 <= i < 6 ==> if d[i] < 10 {
                #[trigger] s[i] as int == 0x30 + d[i]
            } else {
                s[i] as int == 0x41 + d[i] - 10 || s[i] as int == 0x61 + d[i] - 10
            },
    ensures
        color_in(s) is Some,
        255 * color_in(s)->0.r == FULL * (16 * d[0] + d[1]),
        255 * color_in(s)->0.g == FULL * (16 * d[2] + d[3]),
        255 * color_in(s)->0.b == FULL * (16 * d[4] + d[5]),
{
    assert forall|i: int| 0 <= i < 6 implies is_digit(#[trigger] s[i]) && digit_of(s[i]) == d[i] by {
        assert(0 <= d[i] < 16);
    }
    lemma_six_digits(s);
    assert(is_digit(s[0]) && is_digit(s[1]) && is_digit(s[2]));
    assert(is_digit(s[3]) && is_digit(s[4]) && is_digit(s[5]));
}

/// A list without a comma holds the one color that it is, if it is one.
pub proof fn lemma_single_color(s: Seq<char>)
    requires
        forall|i: int| 0 <= i < s.len() ==> #[trigger] s[i] != ',',
    ensures
        color_in(s) is Some ==> colors_among(split_commas(s)) == seq![color_in(s)->0],
        color_in(s) is None ==> colors_among(split_commas(s)).len() == 0,
{
    lemma_single_part(s);
    let parts = seq![s];
    assert(parts.drop_last() =~= Seq::<Seq<char>>::empty());
    assert(parts.last() == s);
    assert(colors_among(parts.drop_last()) =~= Seq::<Color>::empty());
    assert(color_in(s) is Some ==> colors_among(parts) =~= seq![color_in(s)->0]);
}

/// The foreground colors are those of the list where there are any in it, and the
/// seven default ones where there are none; the background color is the one set
/// where it is one, and the default one where not. The default colors have these
/// channels, in thousandths of full intensity.
pub proof fn lemma_settings(fg: Option<&str>, bg: Option<&str>, i: int)
    requires
        0 <= i < 7,
    ensures
        fg is Some && colors_among(split_commas(fg->0@)).len() > 0 ==> foreground(fg)
            == colors_among(split_commas(fg->0@)),
        fg is None || colors_among(split_commas(fg->0@)).len() == 0 ==> {
            let c = foreground(fg)[i];
            let reds = seq![984int, 596, 988, 514, 827, 557, 894];
            let greens = seq![286int, 592, 694, 647, 525, 753, 827];
            let blues = seq![204int, 102, 349, 596, 608, 486, 529];
            &&& foreground(fg).len() == 7
            &&& 1000 * c.r == FULL * reds[i]
            &&& 1000 * c.g == FULL * greens[i]
            &&& 1000 * c.b == FULL * blues[i]
        },
        bg is Some && color_in(bg->0@) is Some ==> background(bg) == color_in(bg->0@)->0,
        bg is None || color_in(bg->0@) is None ==> {
            let c = background(bg);
            1000 * c.r == FULL * 114 && 1000 * c.g == FULL * 122 && 1000 * c.b == FULL * 137
        },
{
}

/// The settings can be read exactly where every part of the list and the background
/// can.
pub proof fn lemma_settings_readable(fg: Option<&str>, bg: Option<&str>)
    ensures
        readable(fg, bg) <==> (fg is None || forall|i: int|
            0 <= i < split_commas(fg->0@).len() ==> reading(#[trigger] split_commas(fg->0@)[i])
                != Reading::Uncuttable) && (bg is None || reading(bg->0@) != Reading::Uncuttable),
{
}

} // verus!
