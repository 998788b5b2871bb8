//! Terminal colours: a value paired with a foreground and a background colour,
//! and the ANSI escape sequence that shows it so.

use vstd::prelude::*;
use crate::number::push_char;

verus! {

/// A terminal colour. `Notset` means that no colour was chosen yet; `Unset`
/// means that the foreground was deliberately left without a colour.
#[derive(Debug, Clone, Copy, PartialEq, Eq, Structural)]
pub enum Color {
    Black,
    Red,
    Green,
    Yellow,
    Blue,
    Magenta,
    Cyan,
    White,
    Notset,
    Unset,
}

impl Default for Color {
    /// No colour chosen.
    fn default() -> (r: Self)
        ensures
            r == Color::Notset,
    {
        Color::Notset
    }
}

/// The display attributes of a styled value.
pub struct Style {
    pub fg: Color,
    pub bg: Color,
    pub bright: bool,
    pub bright_bg: bool,
    pub bold: bool,
    pub italic: bool,
    pub blink: bool,
    pub underline: bool,
    pub hidden: bool,
}

/// The style of a value that was given the foreground `fg` and nothing else.
pub open spec fn plain_style(fg: Color) -> Style {
    Style {
        fg,
        bg: Color::Notset,
        bright: false,
        bright_bg: false,
        bold: false,
        italic: false,
        blink: false,
        underline: false,
        hidden: false,
    }
}

/// Choosing a colour: it becomes the foreground while none is set, and the
/// background once one is (`Unset` counts as set).
pub open spec fn style_with_color(s: Style, c: Color) -> Style {
    if s.fg != Color::Notset {
        Style { bg: c, ..s }
    } else {
        Style { fg: c, ..s }
    }
}

/// `on`: a foreground that was never chosen becomes `Unset`, so that the next
/// colour chosen is the background.
pub open spec fn style_on(s: Style) -> Style {
    if s.fg == Color::Notset {
        Style { fg: Color::Unset, ..s }
    } else {
        s
    }
}

/// `bright`: the foreground is shown in its bright variant.
pub open spec fn style_bright(s: Style) -> Style {
    Style { bright: true, ..s }
}

/// The digit of a colour in ANSI codes (`'0'` for the two non-colours).
pub open spec fn color_digit(c: Color) -> char {
    match c {
        Color::Black => '0',
        Color::Red => '1',
        Color::Green => '2',
        Color::Yellow => '3',
        Color::Blue => '4',
        Color::Magenta => '5',
        Color::Cyan => '6',
        Color::White => '7',
        _ => '0',
    }
}

/// The backgrounds for which a code is written.
pub open spec fn bg_supported(c: Color) -> bool {
    c == Color::Green || c == Color::Blue || c == Color::Black || c == Color::Yellow
}

/// The foreground part of the code: `3x`, or `9x` when bright, for a real colour.
pub open spec fn fg_code(s: Style) -> Seq<char> {
    if s.fg != Color::Notset && s.fg != Color::Unset {
        seq![if s.bright { '9' } else { '3' }, color_digit(s.fg)]
    } else {
        Seq::empty()
    }
}

/// The background part of the code, `4x;`, for a supported background.
pub open spec fn bg_code(c: Color) -> Seq<char> {
    seq!['4', color_digit(c), ';']
}

/// The code that selects the style's colours.
pub open spec fn ansi_code(s: Style) -> Seq<char> {
    fg_code(s) + bg_code(s.bg)
}

/// `text` shown in style `s`: wrapped in the escape sequence that selects the
/// colours and the one that resets them, unless there is no code to write.
pub open spec fn painted(s: Style, text: Seq<char>) -> Seq<char> {
    let code = ansi_code(s);
    if code.len() == 0 {
        text
    } else {
        seq!['\x1b', '['] + code + seq!['m'] + text + seq!['\x1b', '[', '0', 'm']
    }
}

/// The ANSI digit of a colour.
pub fn get_color_num(color: &Color) -> (r: char)
    ensures
        r == color_digit(*color),
{
    match color {
        Color::Black => '0',
        Color::Red => '1',
        Color::Green => '2',
        Color::Yellow => '3',
        Color::Blue => '4',
        Color::Magenta => '5',
        Color::Cyan => '6',
        Color::White => '7',
        _ => '0',
    }
}

/// A value together with the colours and attributes it is to be shown with.
#[derive(Debug, Clone)]
pub struct ColorHolder<B> {
    inner: B,
    fg: Color,
    bg: Color,
    bright: bool,
    bright_bg: bool,
    bold: bool,
    italic: bool,
    blink: bool,
    underline: bool,
    hidden: bool,
}

impl<B> View for ColorHolder<B> {
    type V = Style;

    /// The display attributes.
    closed spec fn view(&self) -> Style {
        Style {
            fg: self.fg,
            bg: self.bg,
            bright: self.bright,
            bright_bg: self.bright_bg,
            bold: self.bold,
            italic: self.italic,
            blink: self.blink,
            underline: self.underline,
            hidden: self.hidden,
        }
    }
}

impl<B> ColorHolder<B> {
    /// The value being styled.
    pub closed spec fn value(&self) -> B {
        self.inner
    }

    /// The value being styled.
    pub fn inner(&self) -> (r: &B)
        ensures
            *r == self.value(),
    {
        &self.inner
    }

    /// Chooses a colour: the foreground while none is set, else the background.
    fn color(self, color: Color) -> (r: Self)
        ensures
            r@ == style_with_color(self@, color),
            r.value() == self.value(),
    {
        let mut s = self;
        if s.fg != Color::Notset {
            s.bg = color;
        } else {
            s.fg = color;
        }
        s
    }

    /// Chooses blue (foreground while none is set, else background).
    pub fn blue(self) -> (r: Self)
        ensures
            r@ == style_with_color(self@, Color::Blue),
            r.value() == self.value(),
    {
        self.color(Color::Blue)
    }

    /// Chooses black (foreground while none is set, else background).
    pub fn black(self) -> (r: Self)
        ensures
            r@ == style_with_color(self@, Color::Black),
            r.value() == self.value(),
    {
        self.color(Color::Black)
    }

    /// Chooses yellow (foreground while none is set, else background).
    pub fn yellow(self) -> (r: Self)
        ensures
            r@ == style_with_color(self@, Color::Yellow),
            r.value() == self.value(),
    {
        self.color(Color::Yellow)
    }

    /// Shows the foreground in its bright variant.
    pub fn bright(self) -> (r: Self)
        ensures
            r@ == style_bright(self@),
            r.value() == self.value(),
    {
        let mut s = self;
        s.bright = true;
        s
    }

    /// Leaves the foreground without colour if none was chosen, so that the next
    /// colour chosen is the background.
    pub fn on(self) -> (r: Self)
        ensures
            r@ == style_on(self@),
            r.value() == self.value(),
    {
        let mut s = self;
        if s.fg == Color::Notset {
            s.fg = Color::Unset;
        }
        s
    }

    /// The ANSI code of the colours, such as `94` followed by `43;`. Codes are
    /// written for the backgrounds green, blue, black and yellow only.
    pub fn ansi(&self) -> (r: String)
        requires
            bg_supported(self@.bg),
        ensures
            r@ == ansi_code(self@),
    {
        let mut color = String::new();
        if self.fg != Color::Notset && self.fg != Color::Unset {
            if self.bright {
                push_char(&mut color, '9');
            } else {
                push_char(&mut color, '3');
            }
            push_char(&mut color, get_color_num(&self.fg));
        }
        match self.bg {
            Color::Green => {
                push_char(&mut color, '4');
                push_char(&mut color, '2');
                push_char(&mut color, ';');
            },
            Color::Blue => {
                push_char(&mut color, '4');
                push_char(&mut color, '4');
                push_char(&mut color, ';');
            },
            Color::Black => {
                push_char(&mut color, '4');
                push_char(&mut color, '0');
                push_char(&mut color, ';');
            },
            _ => {
                push_char(&mut color, '4');
                push_char(&mut color, '3');
                push_char(&mut color, ';');
            },
        }
        assert(color@ =~= ansi_code(self@));
        color
    }

    /// What displaying the styled value writes, given `text`, the way the value
    /// itself displays.
    pub fn paint(&self, text: &str) -> (r: String)
        requires
            bg_supported(self@.bg),
        ensures
            r@ == painted(self@, text@),
    {
        let code = self.ansi();
        if code.as_str().is_empty() {
            return text.to_owned();
        }
        let mut out = String::new();
        push_char(&mut out, '\x1b');
        push_char(&mut out, '[');
        out.append(code.as_str());
        push_char(&mut out, 'm');
        out.append(text);
        push_char(&mut out, '\x1b');
        push_char(&mut out, '[');
        push_char(&mut out, '0');
        push_char(&mut out, 'm');
        assert(out@ =~= painted(self@, text@));
        out
    }
}

/// Values that can be given colours.
pub trait Colorized: Sized {
    /// The value with foreground `fg` and no other attribute.
    fn color(self, fg: Color) -> (r: ColorHolder<Self>)
        ensures
            r@ == plain_style(fg),
            r.value() == self,
    {
        ColorHolder {
            inner: self,
            fg,
            bg: Color::Notset,
            bright: false,
            bright_bg: false,
            bold: false,
            italic: false,
            blink: false,
            underline: false,
            hidden: false,
        }
    }

    /// The value with its foreground deliberately left without colour.
    fn on(self) -> (r: ColorHolder<Self>)
        ensures
            r@ == plain_style(Color::Unset),
            r.value() == self,
    {
        self.color(Color::Unset)
    }

    /// The value in blue.
    fn blue(self) -> (r: ColorHolder<Self>)
        ensures
            r@ == plain_style(Color::Blue),
            r.value() == self,
    {
        self.color(Color::Blue)
    }

    /// The value in black.
    fn black(self) -> (r: ColorHolder<Self>)
        ensures
            r@ == plain_style(Color::Black),
            r.value() == self,
    {
        self.color(Color::Black)
    }

    /// The value in yellow.
    fn yellow(self) -> (r: ColorHolder<Self>)
        ensures
            r@ == plain_style(Color::Yellow),
            r.value() == self,
    {
        self.color(Color::Yellow)
    }

    /// The value in red.
    fn red(self) -> (r: ColorHolder<Self>)
        ensures
            r@ == plain_style(Color::Red),
            r.value() == self,
    {
        self.color(Color::Red)
    }

    /// The value in white.
    fn white(self) -> (r: ColorHolder<Self>)
        ensures
            r@ == plain_style(Color::White),
            r.value() == self,
    {
        self.color(Color::White)
    }

    /// The value in green.
    fn green(self) -> (r: ColorHolder<Self>)
        ensures
            r@ == plain_style(Color::Green),
            r.value() == self,
    {
        self.color(Color::Green)
    }

    /// The value in cyan.
    fn cyan(self) -> (r: ColorHolder<Self>)
        ensures
            r@ == plain_style(Color::Cyan),
            r.value() == self,
    {
        self.color(Color::Cyan)
    }
}

impl<'a> Colorized for &'a str {}

impl Colorized for String {}

/// Choosing a colour after `on` sets the background, whatever the value had
/// before; the foreground stays unset unless a colour had been chosen for it.
pub proof fn lemma_on_then_color_is_background(s: Style, c: Color)
    ensures
        style_with_color(style_on(s), c).bg == c,
        style_with_color(style_on(s), c).fg == if s.fg == Color::Notset {
            Color::Unset
        } else {
            s.fg
        },
{
}

/// Of two colours chosen for a value, the first is its foreground and the second
/// its background.
pub proof fn lemma_two_colors(a: Color, b: Color)
    requires
        a != Color::Notset,
    ensures
        style_with_color(plain_style(a), b).fg == a,
        style_with_color(plain_style(a), b).bg == b,
{
}

/// `bright` and `on` change nothing when applied a second time.
pub proof fn lemma_bright_on_idempotent(s: Style)
    ensures
        style_bright(style_bright(s)) == style_bright(s),
        style_on(style_on(s)) == style_on(s),
{
}

/// A value shown with a supported background is always wrapped in a colour
/// code and a reset: its text stands between the two.
pub proof fn lemma_painted_wraps(s: Style, text: Seq<char>)
    requires
        bg_supported(s.bg),
    ensures
        painted(s, text) == seq!['\x1b', '['] + ansi_code(s) + seq!['m'] + text + seq![
            '\x1b',
            '[',
            '0',
            'm',
        ],
        ansi_code(s).len() >= 3,
{
}

/// The ANSI colour code of each style with a supported background: a real
/// foreground colour (any but `Notset` and `Unset`) is written first as `3` (`9`
/// when bright) followed by its number (black 0, red 1, green 2, yellow 3, blue 4,
/// magenta 5, cyan 6, white 7); then the background as `4`, its number and `;`
/// (black 40, green 42, yellow 43, blue 44).
pub proof fn lemma_ansi_code_table(s: Style)
    requires
        bg_supported(s.bg),
    ensures
        ({
            let code = ansi_code(s);
            let fg_real = s.fg != Color::Notset && s.fg != Color::Unset;
            &&& code.len() == if fg_real { 5int } else { 3int }
            &&& fg_real ==> code[0] == (if s.bright { '9' } else { '3' })
            &&& fg_real ==> code[1] == match s.fg {
                Color::Black => '0',
                Color::Red => '1',
                Color::Green => '2',
                Color::Yellow => '3',
                Color::Blue => '4',
                Color::Magenta => '5',
                Color::Cyan => '6',
                _ => '7',
            }
            &&& code[code.len() - 3] == '4'
            &&& code[code.len() - 2] == match s.bg {
                Color::Black => '0',
                Color::Green => '2',
                Color::Yellow => '3',
                _ => '4',
            }
            &&& code[code.len() - 1] == ';'
        }),
{
}

} // verus!
