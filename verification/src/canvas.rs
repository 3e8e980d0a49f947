//! Frames of styled text tokens that are drawn at terminal positions.

use vstd::prelude::*;
use vstd::string::*;
use crate::strings::push_char;
use crate::terminal::TerminalSize;
use crate::width::{char_width, char_width_of, chars_width, str_width, str_width_of, width_or_zero, ELLIPSIS};

verus! {

/// How a token is rendered.
#[derive(Debug, Clone, Copy, PartialEq, Eq, Structural)]
pub enum TokenStyle {
    Plain,
    Bold,
    Dim,
}

/// A run of text drawn with one style.
#[derive(Debug, Clone, PartialEq, Eq)]
pub struct Token {
    pub text: String,
    pub style: TokenStyle,
}

/// The abstract value of a token: its characters and its style.
pub struct TokenView {
    pub text: Seq<char>,
    pub style: TokenStyle,
}

impl View for Token {
    type V = TokenView;

    open spec fn view(&self) -> TokenView {
        TokenView { text: self.text@, style: self.style }
    }
}

/// `n` horizontal ellipses.
pub open spec fn ellipses(n: nat) -> Seq<char> {
    Seq::new(n, |_i: int| ELLIPSIS)
}

/// Whether cutting `s` after `col` columns examines only characters with a
/// known width: walking from the left, every character reached before the
/// cut has a width.
pub open spec fn split_reaches(s: Seq<char>, col: nat) -> bool
    decreases s.len(),
{
    if col == 0 || s.len() == 0 {
        true
    } else {
        match char_width(s[0]) {
            None => false,
            Some(w) => w > col || split_reaches(s.drop_first(), (col - w) as nat),
        }
    }
}

/// Cuts `s` after `col` columns. The first part holds the characters that fit
/// in `col` columns; where a character would straddle the cut, it is dropped
/// and the first part is filled up to `col` columns with ellipses. The second
/// part holds the rest, after the dropped character if any. Zero-width
/// characters at the cut go to the second part.
pub open spec fn split_at_cols(s: Seq<char>, col: nat) -> (Seq<char>, Seq<char>)
    decreases s.len(),
{
    if col == 0 {
        (Seq::empty(), s)
    } else if s.len() == 0 {
        (Seq::empty(), Seq::empty())
    } else {
        let w = width_or_zero(s[0]);
        if w > col {
            (ellipses(col), s.drop_first())
        } else {
            let r = split_at_cols(s.drop_first(), (col - w) as nat);
            (seq![s[0]] + r.0, r.1)
        }
    }
}

/// Moves the invariant of the splitting loop one character forward.
proof fn lemma_split_step(s: Seq<char>, i: int, c: nat)
    requires
        0 <= i < s.len(),
        c > 0,
        width_or_zero(s[i]) <= c,
    ensures
        split_at_cols(s.skip(i), c).0 == seq![s[i]] + split_at_cols(
            s.skip(i + 1),
            (c - width_or_zero(s[i])) as nat,
        ).0,
        split_at_cols(s.skip(i), c).1 == split_at_cols(
            s.skip(i + 1),
            (c - width_or_zero(s[i])) as nat,
        ).1,
{
    assert(s.skip(i).drop_first() =~= s.skip(i + 1));
    assert(s.skip(i)[0] == s[i]);
}

impl Token {
    /// A plain token holding `s`.
    pub fn plain(s: String) -> (t: Token)
        ensures
            t.text@ == s@,
            t.style == TokenStyle::Plain,
    {
        Token { text: s, style: TokenStyle::Plain }
    }

    /// Cuts the token after `col` columns: returns the part before the cut,
    /// keeps the part after it, and gives both the token's style.
    pub fn split_prefix_off(&mut self, col: usize) -> (prefix: Token)
        requires
            split_reaches(old(self).text@, col as nat),
        ensures
            prefix.text@ == split_at_cols(old(self).text@, col as nat).0,
            final(self).text@ == split_at_cols(old(self).text@, col as nat).1,
            prefix.style == old(self).style,
            final(self).style == old(self).style,
    {
        let ghost s = self.text@;
        let n = self.text.as_str().unicode_len();
        let mut acc: usize = 0;
        let mut i: usize = 0;
        assert(s.skip(0) =~= s);
        assert(s.take(0) =~= Seq::<char>::empty());
        while i < n
            invariant
                n == s.len(),
                s == old(self).text@,
                self.text@ == s,
                self.style == old(self).style,
                i <= n,
                acc <= col,
                split_reaches(s.skip(i as int), (col - acc) as nat),
                split_at_cols(s, col as nat).0 == s.take(i as int) + split_at_cols(
                    s.skip(i as int),
                    (col - acc) as nat,
                ).0,
                split_at_cols(s, col as nat).1 == split_at_cols(
                    s.skip(i as int),
                    (col - acc) as nat,
                ).1,
            decreases n - i,
        {
            let c = self.text.as_str().get_char(i);
            assert(s.skip(i as int)[0] == c);
            if acc == col {
                let prefix = String::from_str(self.text.as_str().substring_char(0, i));
                let suffix = String::from_str(self.text.as_str().substring_char(i, n));
                assert(s.subrange(0, i as int) =~= s.take(i as int));
                assert(s.subrange(i as int, n as int) =~= s.skip(i as int));
                assert(split_at_cols(s.skip(i as int), 0) == (Seq::<char>::empty(), s.skip(i as int)));
                assert(s.take(i as int) + Seq::<char>::empty() =~= s.take(i as int));
                let style = self.style;
                self.text = suffix;
                return Token { text: prefix, style };
            }
            let w = match char_width_of(c) {
                Some(w) => w,
                None => {
                    assert(false);
                    0
                },
            };
            if w > col - acc {
                let mut prefix = String::from_str(self.text.as_str().substring_char(0, i));
                let suffix = String::from_str(self.text.as_str().substring_char(i + 1, n));
                let ghost pre = prefix@;
                let mut k: usize = acc;
                while k < col
                    invariant
                        acc <= k <= col,
                        prefix@ == pre + ellipses((k - acc) as nat),
                    decreases col - k,
                {
                    push_char(&mut prefix, ELLIPSIS);
                    k = k + 1;
                    assert(prefix@ =~= pre + ellipses((k - acc) as nat));
                }
                assert(s.skip(i as int).drop_first() =~= s.subrange(i + 1, n as int));
                assert(s.subrange(0, i as int) =~= s.take(i as int));
                assert(width_or_zero(c) == w);
                assert(split_at_cols(s.skip(i as int), (col - acc) as nat) == (
                    ellipses((col - acc) as nat),
                    s.skip(i as int).drop_first(),
                ));
                let style = self.style;
                self.text = suffix;
                return Token { text: prefix, style };
            }
            proof {
                lemma_split_step(s, i as int, (col - acc) as nat);
                assert(s.skip(i as int).drop_first() =~= s.skip(i + 1));
                assert(s.take(i as int) + seq![s[i as int]] =~= s.take(i + 1));
                assert(s.take(i + 1) + split_at_cols(s.skip(i + 1), (col - acc - w) as nat).0
                    =~= s.take(i as int) + (seq![s[i as int]] + split_at_cols(
                    s.skip(i + 1),
                    (col - acc - w) as nat,
                ).0));
            }
            acc = acc + w;
            i = i + 1;
        }
        assert(s.skip(n as int) =~= Seq::<char>::empty());
        assert(s.take(n as int) + Seq::<char>::empty() =~= s);
        let style = self.style;
        let mut prefix = String::new();
        std::mem::swap(&mut prefix, &mut self.text);
        Token { text: prefix, style }
    }

    /// The token's width in columns, as `unicode-width` measures the whole text.
    pub fn cols(&self) -> (r: usize)
        ensures
            r == str_width(self.text@),
    {
        str_width_of(self.text.as_str())
    }
}

/// The abstract values of a sequence of tokens.
pub open spec fn token_views(ts: Seq<Token>) -> Seq<TokenView> {
    ts.map_values(|t: Token| t@)
}

/// The width of a line: the sum of the widths of its tokens.
pub open spec fn line_cols(ts: Seq<TokenView>) -> nat
    decreases ts.len(),
{
    if ts.len() == 0 {
        0
    } else {
        line_cols(ts.drop_last()) + (str_width(ts.last().text) as nat)
    }
}

/// Splits the tokens of a line at column `col`, scanning from token `i` with
/// `acc` columns before it. The first part is kept by the line, the second is
/// handed out. A token that ends past `col` is cut with `split_at_cols`, but
/// at the amount by which it overshoots `col`, as the scan computes it.
pub open spec fn line_split_from(t: Seq<TokenView>, col: nat, i: int, acc: nat) -> (
    Seq<TokenView>,
    Seq<TokenView>,
)
    decreases t.len() - i,
{
    if i < 0 || i >= t.len() {
        (t, Seq::empty())
    } else if acc == col {
        (t.take(i), t.skip(i))
    } else {
        let next = acc + str_width(t[i].text);
        if next > col {
            let parts = split_at_cols(t[i].text, (next - col) as nat);
            (
                t.take(i).push(TokenView { text: parts.0, style: t[i].style }),
                t.skip(i).update(0, TokenView { text: parts.1, style: t[i].style }),
            )
        } else {
            line_split_from(t, col, i + 1, next as nat)
        }
    }
}

/// Splits the tokens of a line at column `col`.
pub open spec fn line_split(t: Seq<TokenView>, col: nat) -> (Seq<TokenView>, Seq<TokenView>) {
    line_split_from(t, col, 0, 0)
}

/// Whether the scan of `line_split_from` runs without overflow and cuts the
/// overshooting token, if any, only through characters of known width.
pub open spec fn line_split_ok_from(t: Seq<TokenView>, col: nat, i: int, acc: nat) -> bool
    decreases t.len() - i,
{
    if i < 0 || i >= t.len() || acc == col {
        true
    } else {
        let next = acc + str_width(t[i].text);
        &&& next <= usize::MAX
        &&& if next > col {
            split_reaches(t[i].text, (next - col) as nat)
        } else {
            line_split_ok_from(t, col, i + 1, next as nat)
        }
    }
}

/// Whether `line_split(t, col)` can be computed.
pub open spec fn line_split_ok(t: Seq<TokenView>, col: nat) -> bool {
    line_split_ok_from(t, col, 0, 0)
}

/// `n` spaces.
pub open spec fn spaces(n: nat) -> Seq<char> {
    Seq::new(n, |_i: int| ' ')
}

/// The line padded with a plain token of spaces up to column `col`, if it is
/// narrower than that.
pub open spec fn padded_to(t: Seq<TokenView>, col: nat) -> Seq<TokenView> {
    if col > line_cols(t) {
        t.push(TokenView { text: spaces((col - line_cols(t)) as nat), style: TokenStyle::Plain })
    } else {
        t
    }
}

/// The line after `token` is drawn at column `col`: the line is padded to
/// `col`, split at `col`, the first columns of the rest that the token covers
/// are cut away, and the token is put in between.
pub open spec fn line_drawn(t: Seq<TokenView>, col: nat, token: TokenView) -> Seq<TokenView> {
    let front = line_split(padded_to(t, col), col);
    let back = line_split(front.1, str_width(token.text) as nat);
    front.0.push(token) + back.1
}

/// Whether drawing `token` at column `col` runs without overflow and cuts
/// tokens only through characters of known width.
pub open spec fn line_draw_ok(t: Seq<TokenView>, col: nat, token: TokenView) -> bool {
    let front = line_split(padded_to(t, col), col);
    &&& line_cols(t) <= usize::MAX
    &&& line_split_ok(padded_to(t, col), col)
    &&& line_split_ok(front.1, str_width(token.text) as nat)
}

/// A line of a frame: tokens drawn from left to right.
#[derive(Debug, Default, Clone, PartialEq, Eq)]
pub struct FrameLine {
    pub tokens: Vec<Token>,
}

impl View for FrameLine {
    type V = Seq<TokenView>;

    open spec fn view(&self) -> Seq<TokenView> {
        token_views(self.tokens@)
    }
}

/// A string of `n` spaces.
fn spaces_string(n: usize) -> (s: String)
    ensures
        s@ == spaces(n as nat),
{
    let mut s = String::new();
    let mut k: usize = 0;
    while k < n
        invariant
            k <= n,
            s@ == spaces(k as nat),
        decreases n - k,
    {
        push_char(&mut s, ' ');
        k = k + 1;
        assert(s@ =~= spaces(k as nat));
    }
    s
}

impl FrameLine {
    /// An empty line.
    pub fn new() -> (line: FrameLine)
        ensures
            line@ == Seq::<TokenView>::empty(),
    {
        let line = FrameLine { tokens: Vec::new() };
        assert(line@ =~= Seq::<TokenView>::empty());
        line
    }

    /// Draws `token` starting at column `col`, over whatever the line held
    /// there, padding the line with spaces first if it is narrower than `col`.
    pub fn draw_token(&mut self, col: usize, token: Token)
        requires
            line_draw_ok(old(self)@, col as nat, token@),
        ensures
            final(self)@ == line_drawn(old(self)@, col as nat, token@),
    {
        let ghost t0 = self@;
        let cols = self.cols();
        if col > cols {
            let pad = Token::plain(spaces_string(col - cols));
            self.tokens.push(pad);
            assert(self@ =~= padded_to(t0, col as nat));
        } else {
            assert(self@ =~= padded_to(t0, col as nat));
        }
        let mut suffix = self.split_off(col);
        let ghost front1 = suffix@;
        let token_cols = token.cols();
        let mut rest = suffix.split_off(token_cols);
        let ghost kept = self@;
        self.tokens.push(token);
        self.tokens.append(&mut rest.tokens);
        assert(self@ =~= kept.push(token@) + line_split(front1, token_cols as nat).1);
    }

    /// Splits the line at column `col`: keeps the tokens before it and returns
    /// the tokens from it on, as `line_split` describes.
    fn split_off(&mut self, col: usize) -> (suffix: FrameLine)
        requires
            line_split_ok(old(self)@, col as nat),
        ensures
            final(self)@ == line_split(old(self)@, col as nat).0,
            suffix@ == line_split(old(self)@, col as nat).1,
    {
        let ghost t = self@;
        let mut acc: usize = 0;
        let mut i: usize = 0;
        let n = self.tokens.len();
        while i < n
            invariant
                n == self.tokens.len(),
                self@ == t,
                t == old(self)@,
                i <= n,
                acc <= col,
                line_split_from(t, col as nat, i as int, acc as nat) == line_split(t, col as nat),
                line_split_ok_from(t, col as nat, i as int, acc as nat),
            decreases n - i,
        {
            if acc == col {
                let suffix = self.tokens.split_off(i);
                let r = FrameLine { tokens: suffix };
                assert(self@ =~= t.take(i as int));
                assert(r@ =~= t.skip(i as int));
                return r;
            }
            let w = self.tokens[i].cols();
            assert(self.tokens@[i as int]@ == t[i as int]);
            acc = acc + w;
            if acc == col {
                i = i + 1;
                continue;
            } else if acc > col {
                let overshoot = acc - col;
                let mut rest = self.tokens.split_off(i);
                let ghost rest0 = rest@;
                let mut first = rest.remove(0);
                let prefix = first.split_prefix_off(overshoot);
                rest.insert(0, first);
                self.tokens.push(prefix);
                let r = FrameLine { tokens: rest };
                assert(self@ =~= line_split(t, col as nat).0);
                assert(r@ =~= line_split(t, col as nat).1);
                return r;
            }
            i = i + 1;
        }
        assert(line_split_from(t, col as nat, n as int, acc as nat) == (t, Seq::<TokenView>::empty()));
        let r = FrameLine::new();
        r
    }

    /// The width of the line in columns: the sum of its tokens' widths.
    pub fn cols(&self) -> (r: usize)
        requires
            line_cols(self@) <= usize::MAX,
        ensures
            r == line_cols(self@),
    {
        let mut sum: usize = 0;
        let mut i: usize = 0;
        let n = self.tokens.len();
        while i < n
            invariant
                n == self.tokens.len(),
                i <= n,
                line_cols(self@) <= usize::MAX,
                sum == line_cols(self@.take(i as int)),
            decreases n - i,
        {
            proof {
                lemma_line_cols_prefix_le(self@, (i + 1) as int);
                assert(self@.take(i + 1).drop_last() =~= self@.take(i as int));
            }
            let w = self.tokens[i].cols();
            sum = sum + w;
            i = i + 1;
        }
        assert(self@.take(n as int) =~= self@);
        sum
    }
}

/// The width of a prefix of a line is at most the width of the line.
proof fn lemma_line_cols_prefix_le(t: Seq<TokenView>, k: int)
    requires
        0 <= k <= t.len(),
    ensures
        line_cols(t.take(k)) <= line_cols(t),
    decreases t.len() - k,
{
    if k < t.len() {
        lemma_line_cols_prefix_le(t, k + 1);
        assert(t.take(k + 1).drop_last() =~= t.take(k));
    } else {
        assert(t.take(k) =~= t);
    }
}

/// The width of the first `i + 1` tokens is that of the first `i` plus the
/// width of token `i`.
proof fn lemma_line_cols_take_step(t: Seq<TokenView>, i: int)
    requires
        0 <= i < t.len(),
    ensures
        line_cols(t.take(i + 1)) == line_cols(t.take(i)) + str_width(t[i].text),
{
    assert(t.take(i + 1).drop_last() =~= t.take(i));
}

/// Splitting a line of tokens that all have some width, at the column where
/// token `a` starts, cuts it between token `a - 1` and token `a`.
proof fn lemma_split_at_boundary(t: Seq<TokenView>, col: nat, i: int, acc: nat, a: int)
    requires
        0 <= i <= a <= t.len(),
        acc == line_cols(t.take(i)),
        col == line_cols(t.take(a)),
        forall|j: int| 0 <= j < a ==> str_width(#[trigger] t[j].text) > 0,
    ensures
        line_split_from(t, col, i, acc) == (t.take(a), t.skip(a)),
    decreases a - i,
{
    if i == a {
        if a == t.len() {
            assert(t.take(a) =~= t);
            assert(t.skip(a) =~= Seq::<TokenView>::empty());
        }
    } else {
        lemma_line_cols_take_step(t, i);
        lemma_line_cols_prefix_le(t.take(a), i + 1);
        assert(t.take(a).take(i + 1) =~= t.take(i + 1));
        assert(str_width(t[i].text) > 0);
        lemma_split_at_boundary(t, col, i + 1, line_cols(t.take(i + 1)), a);
    }
}

/// Drawing a token exactly over whole tokens of a line, from the column where
/// token `a` starts and as wide as tokens `a` up to `b` together, puts the
/// token in their place and keeps every other token: those before it and
/// those from token `b` on. Tokens of no width before `b` are left out, since
/// the column where such a token starts is also where the next one starts.
pub proof fn law_draw_over_whole_tokens(t: Seq<TokenView>, a: int, b: int, token: TokenView)
    requires
        0 <= a <= b <= t.len(),
        forall|j: int| 0 <= j < b ==> str_width(#[trigger] t[j].text) > 0,
        str_width(token.text) == line_cols(t.subrange(a, b)),
    ensures
        line_drawn(t, line_cols(t.take(a)), token) == t.take(a).push(token) + t.skip(b),
{
    let col = line_cols(t.take(a));
    lemma_line_cols_prefix_le(t, a);
    assert(padded_to(t, col) == t);
    assert(t.take(0) =~= Seq::<TokenView>::empty());
    lemma_split_at_boundary(t, col, 0, 0, a);
    let u = t.skip(a);
    let w = str_width(token.text) as nat;
    assert(u.take(b - a) =~= t.subrange(a, b));
    assert(u.take(0) =~= Seq::<TokenView>::empty());
    assert forall|j: int| 0 <= j < b - a implies str_width(#[trigger] u[j].text) > 0 by {
        assert(u[j] == t[a + j]);
    }
    lemma_split_at_boundary(u, w, 0, 0, b - a);
    assert(u.skip(b - a) =~= t.skip(b));
}

/// Drawing a token where a line of tokens that all have some width ends
/// appends the token to the line.
pub proof fn law_draw_at_end(t: Seq<TokenView>, token: TokenView)
    requires
        forall|j: int| 0 <= j < t.len() ==> str_width(#[trigger] t[j].text) > 0,
    ensures
        line_drawn(t, line_cols(t), token) == t.push(token),
{
    assert(t.take(t.len() as int) =~= t);
    assert(padded_to(t, line_cols(t)) == t);
    assert(t.take(0) =~= Seq::<TokenView>::empty());
    lemma_split_at_boundary(t, line_cols(t), 0, 0, t.len() as int);
    assert(t.skip(t.len() as int) =~= Seq::<TokenView>::empty());
    assert(t.push(token) + Seq::<TokenView>::empty() =~= t.push(token));
}

/// Whether two lines hold equal tokens.
fn lines_equal(a: &FrameLine, b: &FrameLine) -> (r: bool)
    ensures
        r == (a@ == b@),
{
    let n = a.tokens.len();
    if n != b.tokens.len() {
        assert(a@.len() != b@.len());
        return false;
    }
    let mut i: usize = 0;
    while i < n
        invariant
            n == a.tokens.len(),
            n == b.tokens.len(),
            i <= n,
            forall|j: int| 0 <= j < i ==> a@[j] == b@[j],
        decreases n - i,
    {
        let ta = &a.tokens[i];
        let tb = &b.tokens[i];
        if !(ta.text == tb.text && ta.style == tb.style) {
            assert(a@[i as int] != b@[i as int]);
            return false;
        }
        i = i + 1;
    }
    assert(a@ =~= b@);
    true
}

/// The indices of the lines among the first `n` that differ from the line at
/// the same index of `prev`.
pub open spec fn changed_lines(lines: Seq<FrameLine>, prev: Seq<FrameLine>, n: int) -> Seq<usize>
    decreases n,
{
    if n <= 0 {
        Seq::empty()
    } else {
        let r = changed_lines(lines, prev, n - 1);
        if lines[n - 1]@ != prev[n - 1]@ {
            r.push((n - 1) as usize)
        } else {
            r
        }
    }
}

/// The indices of the lines of a frame that must be redrawn over `prev`: the
/// lines that differ from the line at the same index of `prev`, then the lines
/// past the end of `prev`.
pub open spec fn dirty_indices(lines: Seq<FrameLine>, prev: Seq<FrameLine>) -> Seq<usize> {
    let common = if lines.len() <= prev.len() { lines.len() } else { prev.len() };
    changed_lines(lines, prev, common as int) + Seq::new(
        (lines.len() - common) as nat,
        |k: int| (prev.len() + k) as usize,
    )
}

/// The contents of a terminal screen: one line per row.
#[derive(Debug, Clone)]
pub struct Frame {
    pub size: TerminalSize,
    pub lines: Vec<FrameLine>,
}

impl Frame {
    /// A frame of the given size whose lines are all empty.
    pub fn new(size: TerminalSize) -> (frame: Frame)
        ensures
            frame.size == size,
            frame.lines@.len() == size.rows,
            forall|i: int| 0 <= i < size.rows ==> (#[trigger] frame.lines@[i])@ == Seq::<
                TokenView,
            >::empty(),
    {
        let mut lines: Vec<FrameLine> = Vec::new();
        let mut k: usize = 0;
        while k < size.rows
            invariant
                k <= size.rows,
                lines@.len() == k,
                forall|i: int| 0 <= i < k ==> (#[trigger] lines@[i])@ == Seq::<TokenView>::empty(),
            decreases size.rows - k,
        {
            lines.push(FrameLine::new());
            k = k + 1;
        }
        Frame { size, lines }
    }

    /// The lines that must be redrawn over `prev`, with their indices: the
    /// lines that differ from the line at the same index of `prev`, then the
    /// lines past the end of `prev`, in order.
    pub fn dirty_lines<'a>(&'a self, prev: &'a Frame) -> (r: Vec<(usize, &'a FrameLine)>)
        ensures
            r@.len() == dirty_indices(self.lines@, prev.lines@).len(),
            forall|k: int|
                0 <= k < r@.len() ==> {
                    &&& (#[trigger] r@[k]).0 == dirty_indices(self.lines@, prev.lines@)[k]
                    &&& r@[k].0 < self.lines@.len()
                    &&& *r@[k].1 == self.lines@[r@[k].0 as int]
                },
    {
        let n = self.lines.len();
        let m = prev.lines.len();
        let common = if n <= m { n } else { m };
        let mut r: Vec<(usize, &'a FrameLine)> = Vec::new();
        let mut i: usize = 0;
        while i < common
            invariant
                n == self.lines@.len(),
                m == prev.lines@.len(),
                common <= n,
                common <= m,
                common == (if n <= m { n } else { m }),
                i <= common,
                r@.len() == changed_lines(self.lines@, prev.lines@, i as int).len(),
                forall|k: int|
                    0 <= k < r@.len() ==> {
                        &&& (#[trigger] r@[k]).0 == changed_lines(self.lines@, prev.lines@, i as int)[k]
                        &&& r@[k].0 < n
                        &&& *r@[k].1 == self.lines@[r@[k].0 as int]
                    },
                forall|k: int|
                    0 <= k < changed_lines(self.lines@, prev.lines@, i as int).len() ==> #[trigger] changed_lines(
                        self.lines@,
                        prev.lines@,
                        i as int,
                    )[k] < i,
            decreases common - i,
        {
            let ghost before = changed_lines(self.lines@, prev.lines@, i as int);
            if !lines_equal(&self.lines[i], &prev.lines[i]) {
                r.push((i, &self.lines[i]));
            }
            i = i + 1;
            assert(changed_lines(self.lines@, prev.lines@, i as int) == if self.lines@[i - 1]@
                != prev.lines@[i - 1]@ {
                before.push((i - 1) as usize)
            } else {
                before
            });
        }
        let ghost head = r@;
        let mut j: usize = m;
        while j < n
            invariant
                n == self.lines@.len(),
                m == prev.lines@.len(),
                common == (if n <= m { n } else { m }),
                m <= j,
                j <= (if n >= m { n } else { m }),
                head.len() == changed_lines(self.lines@, prev.lines@, common as int).len(),
                r@.len() == head.len() + (j - m),
                forall|k: int| 0 <= k < head.len() ==> r@[k] == head[k],
                forall|k: int|
                    0 <= k < head.len() ==> {
                        &&& (#[trigger] head[k]).0 == changed_lines(self.lines@, prev.lines@, common as int)[k]
                        &&& head[k].0 < n
                        &&& *head[k].1 == self.lines@[head[k].0 as int]
                    },
                forall|k: int|
                    head.len() <= k < r@.len() ==> {
                        &&& (#[trigger] r@[k]).0 == m + (k - head.len())
                        &&& r@[k].0 < n
                        &&& *r@[k].1 == self.lines@[r@[k].0 as int]
                    },
            decreases n - j,
        {
            r.push((j, &self.lines[j]));
            j = j + 1;
        }
        assert forall|k: int| 0 <= k < r@.len() implies {
            &&& (#[trigger] r@[k]).0 == dirty_indices(self.lines@, prev.lines@)[k]
            &&& r@[k].0 < self.lines@.len()
            &&& *r@[k].1 == self.lines@[r@[k].0 as int]
        } by {
            if k < head.len() {
                assert(r@[k] == head[k]);
            }
        }
        r
    }
}

/// A position on the screen: a row and a column.
#[derive(Debug, Default, Clone, Copy, PartialEq, Eq, Structural)]
pub struct CanvasPosition {
    pub row: usize,
    pub col: usize,
}

impl CanvasPosition {
    /// The position at `row` and `col`.
    pub fn row_col(row: usize, col: usize) -> (p: CanvasPosition)
        ensures
            p.row == row,
            p.col == col,
    {
        CanvasPosition { row, col }
    }
}

/// A frame that shows the rows of a taller canvas from `frame_row_offset` on.
#[derive(Debug)]
pub struct Canvas2 {
    pub frame: Frame,
    pub frame_row_offset: usize,
}

impl Canvas2 {
    /// A canvas over an empty frame of the given size, showing from row 0.
    pub fn new(frame_size: TerminalSize) -> (c: Canvas2)
        ensures
            c.frame.size == frame_size,
            c.frame.lines@.len() == frame_size.rows,
            forall|i: int| 0 <= i < frame_size.rows ==> (#[trigger] c.frame.lines@[i])@ == Seq::<
                TokenView,
            >::empty(),
            c.frame_row_offset == 0,
    {
        Canvas2 { frame: Frame::new(frame_size), frame_row_offset: 0 }
    }

    /// The canvas rows that the frame shows: from the offset, as many as the
    /// frame has rows.
    pub fn frame_row_range(&self) -> (r: std::ops::Range<usize>)
        requires
            self.frame_row_offset + self.frame.size.rows <= usize::MAX,
        ensures
            r.start == self.frame_row_offset,
            r.end == self.frame_row_offset + self.frame.size.rows,
    {
        std::ops::Range {
            start: self.frame_row_offset,
            end: self.frame_row_offset + self.frame.size.rows,
        }
    }

    /// Draws `token` at `position` where the position's column, not its row,
    /// lies in the range of canvas rows that the frame shows; otherwise draws
    /// nothing.
    pub fn draw_token(&mut self, position: CanvasPosition, token: Token)
        requires
            old(self).frame_row_offset + old(self).frame.size.rows <= usize::MAX,
            token_draw_ok(*old(self), position, token@),
        ensures
            final(self).frame_row_offset == old(self).frame_row_offset,
            final(self).frame.size == old(self).frame.size,
            final(self).frame.lines@.len() == old(self).frame.lines@.len(),
            !shows_col(*old(self), position) ==> final(self).frame.lines@ == old(self).frame.lines@,
            shows_col(*old(self), position) ==> {
                let i = position.row - old(self).frame_row_offset;
                &&& final(self).frame.lines@[i]@ == line_drawn(
                    old(self).frame.lines@[i]@,
                    position.col as nat,
                    token@,
                )
                &&& forall|j: int|
                    0 <= j < final(self).frame.lines@.len() && j != i
                        ==> (#[trigger] final(self).frame.lines@[j]) == old(self).frame.lines@[j]
            },
    {
        let range = self.frame_row_range();
        if !(range.start <= position.col && position.col < range.end) {
            return;
        }
        let i = position.row - self.frame_row_offset;
        let mut line = FrameLine::new();
        std::mem::swap(&mut line, &mut self.frame.lines[i]);
        line.draw_token(position.col, token);
        self.frame.lines.set(i, line);
    }

    /// Hands out the frame drawn so far and starts over with an empty frame of
    /// the same size.
    pub fn take_frame(&mut self) -> (f: Frame)
        ensures
            f.size == old(self).frame.size,
            f.lines@ == old(self).frame.lines@,
            final(self).frame.size == old(self).frame.size,
            final(self).frame.lines@.len() == old(self).frame.size.rows,
            forall|i: int|
                0 <= i < old(self).frame.size.rows ==> (#[trigger] final(self).frame.lines@[i])@
                    == Seq::<TokenView>::empty(),
            final(self).frame_row_offset == old(self).frame_row_offset,
    {
        let size = self.frame.size;
        let mut f = Frame::new(size);
        std::mem::swap(&mut f, &mut self.frame);
        f
    }
}

/// Whether the canvas would draw at `position`: its column lies in the frame's
/// row range.
pub open spec fn shows_col(c: Canvas2, position: CanvasPosition) -> bool {
    c.frame_row_offset <= position.col < c.frame_row_offset + c.frame.size.rows
}

/// Whether drawing `token` at `position` runs without a fault: where the
/// canvas draws, the position's row lies at or below the offset, within the
/// frame's lines, and the line can take the token.
pub open spec fn token_draw_ok(c: Canvas2, position: CanvasPosition, token: TokenView) -> bool {
    shows_col(c, position) ==> {
        &&& c.frame_row_offset <= position.row
        &&& position.row - c.frame_row_offset < c.frame.lines@.len()
        &&& line_draw_ok(
            c.frame.lines@[position.row - c.frame_row_offset]@,
            position.col as nat,
            token,
        )
    }
}

/// A position on the screen: a row and a column.
#[derive(Debug, Default, Clone, Copy, PartialEq, Eq, Structural)]
pub struct Position {
    pub row: usize,
    pub col: usize,
}

impl Position {
    /// The position at `row` and `col`.
    pub fn new(row: usize, col: usize) -> (p: Position)
        ensures
            p.row == row,
            p.col == col,
    {
        Position { row, col }
    }
}

#[verifier::external_type_specification]
#[verifier::external_body]
pub struct ExAttributes(crossterm::style::Attributes);

/// The attributes that a `crossterm::style::Attributes` bitset holds, each
/// given by its position among the variants of `crossterm::style::Attribute`
/// (`Bold` is 1, `Dim` is 2).
pub uninterp spec fn attribute_set(a: crossterm::style::Attributes) -> Set<u32>;

/// The text attributes that this crate sets.
#[derive(Debug, Clone, Copy, PartialEq, Eq, Structural)]
pub enum TextAttribute {
    Bold,
    Dim,
}

/// The position of the attribute among the variants of
/// `crossterm::style::Attribute`.
pub open spec fn attribute_index(a: TextAttribute) -> u32 {
    match a {
        TextAttribute::Bold => 1,
        TextAttribute::Dim => 2,
    }
}

/// `Attributes::default()` of `crossterm`: the bitset with no attribute set
/// (the derived default of its `u32` is zero).
#[verifier::external_body]
fn attributes_none() -> (r: crossterm::style::Attributes)
    ensures
        attribute_set(r) == Set::<u32>::empty(),
{
    crossterm::style::Attributes::default()
}

/// `Attributes::set` of `crossterm`: adds the attribute to the bitset and
/// keeps the others.
#[verifier::external_body]
fn attributes_set(attrs: &mut crossterm::style::Attributes, a: TextAttribute)
    ensures
        attribute_set(*final(attrs)) == attribute_set(*old(attrs)).insert(attribute_index(a)),
{
    match a {
        TextAttribute::Bold => attrs.set(crossterm::style::Attribute::Bold),
        TextAttribute::Dim => attrs.set(crossterm::style::Attribute::Dim),
    }
}

/// The `==` of `crossterm::style::Attributes` (derived on its `u32` bitset):
/// whether the two bitsets are the same value.
#[verifier::external_body]
fn attributes_eq(a: &crossterm::style::Attributes, b: &crossterm::style::Attributes) -> (r: bool)
    ensures
        r == (*a == *b),
{
    *a == *b
}

/// A piece of text with display attributes.
#[derive(Debug, PartialEq, Eq)]
pub struct Text {
    pub text: String,
    pub attrs: crossterm::style::Attributes,
}

/// The abstract value of a text: its characters and its attributes.
pub struct TextView {
    pub text: Seq<char>,
    pub attrs: Set<u32>,
}

impl View for Text {
    type V = TextView;

    open spec fn view(&self) -> TextView {
        TextView { text: self.text@, attrs: attribute_set(self.attrs) }
    }
}

/// The characters of `s` that come before the first character at which the
/// running width reaches `max_cols`.
pub open spec fn text_truncated(s: Seq<char>, max_cols: nat) -> Seq<char>
    decreases s.len(),
{
    if s.len() == 0 {
        s
    } else {
        let w = width_or_zero(s[0]);
        if w >= max_cols {
            Seq::empty()
        } else {
            seq![s[0]] + text_truncated(s.drop_first(), (max_cols - w) as nat)
        }
    }
}

/// Whether `text_truncated(s, max_cols)` examines only characters of known
/// width.
pub open spec fn truncate_reaches(s: Seq<char>, max_cols: nat) -> bool
    decreases s.len(),
{
    if s.len() == 0 {
        true
    } else {
        match char_width(s[0]) {
            None => false,
            Some(w) => w >= max_cols || truncate_reaches(s.drop_first(), (max_cols - w) as nat),
        }
    }
}

impl Text {
    /// A text holding `text`, with no attribute.
    pub fn new(text: &str) -> (t: Text)
        ensures
            t.text@ == text@,
            t@.attrs == Set::<u32>::empty(),
    {
        Text { text: text.to_owned(), attrs: attributes_none() }
    }

    /// The width of the text in columns, as `unicode-width` measures it.
    pub fn cols(&self) -> (r: usize)
        ensures
            r == str_width(self.text@),
    {
        str_width_of(self.text.as_str())
    }

    /// Cuts the text before the first character at which its running width
    /// reaches `max_cols`.
    pub fn truncate(&mut self, max_cols: usize)
        requires
            truncate_reaches(old(self).text@, max_cols as nat),
        ensures
            final(self).text@ == text_truncated(old(self).text@, max_cols as nat),
            final(self).attrs == old(self).attrs,
    {
        let ghost s = self.text@;
        let n = self.text.as_str().unicode_len();
        let mut cols: usize = 0;
        let mut i: usize = 0;
        assert(s.skip(0) =~= s);
        while i < n
            invariant
                n == s.len(),
                s == old(self).text@,
                self.text@ == s,
                self.attrs == old(self).attrs,
                i <= n,
                cols <= max_cols,
                truncate_reaches(s.skip(i as int), (max_cols - cols) as nat),
                text_truncated(s, max_cols as nat) == s.take(i as int) + text_truncated(
                    s.skip(i as int),
                    (max_cols - cols) as nat,
                ),
            decreases n - i,
        {
            let c = self.text.as_str().get_char(i);
            assert(s.skip(i as int)[0] == c);
            assert(s.skip(i as int).drop_first() =~= s.skip(i + 1));
            let w = match char_width_of(c) {
                Some(w) => w,
                None => {
                    assert(false);
                    0
                },
            };
            if w >= max_cols - cols {
                let cut = String::from_str(self.text.as_str().substring_char(0, i));
                assert(s.subrange(0, i as int) =~= s.take(i as int));
                assert(s.take(i as int) + Seq::<char>::empty() =~= s.take(i as int));
                self.text = cut;
                return;
            }
            assert(s.take(i as int) + seq![c] =~= s.take(i + 1));
            assert(s.take(i + 1) + text_truncated(s.skip(i + 1), (max_cols - cols - w) as nat)
                =~= s.take(i as int) + (seq![c] + text_truncated(
                s.skip(i + 1),
                (max_cols - cols - w) as nat,
            )));
            cols = cols + w;
            i = i + 1;
        }
        assert(s.skip(n as int) =~= Seq::<char>::empty());
        assert(s.take(n as int) + Seq::<char>::empty() =~= s);
    }

    /// The text with the bold attribute added.
    pub fn bold(self) -> (t: Text)
        ensures
            t.text@ == self.text@,
            t@.attrs == self@.attrs.insert(attribute_index(TextAttribute::Bold)),
    {
        let mut t = self;
        attributes_set(&mut t.attrs, TextAttribute::Bold);
        t
    }

    /// The text with the dim attribute added.
    pub fn dim(self) -> (t: Text)
        ensures
            t.text@ == self.text@,
            t@.attrs == self@.attrs.insert(attribute_index(TextAttribute::Dim)),
    {
        let mut t = self;
        attributes_set(&mut t.attrs, TextAttribute::Dim);
        t
    }
}

/// Whether two texts hold the same characters and the same attribute bitset.
pub open spec fn texts_same(a: Text, b: Text) -> bool {
    a.text@ == b.text@ && a.attrs == b.attrs
}

/// Whether two rows hold the same texts, one for one.
pub open spec fn rows_same(a: Row, b: Row) -> bool {
    a.texts@.len() == b.texts@.len() && forall|j: int|
        0 <= j < a.texts@.len() ==> #[trigger] texts_same(a.texts@[j], b.texts@[j])
}

/// The indices among the first `n` rows that must be drawn over `prev`: the
/// rows that `prev` does not have, and the rows that differ from the row at
/// the same index of `prev`.
pub open spec fn redrawn_rows(rows: Seq<Row>, prev: Seq<Row>, n: int) -> Seq<usize>
    decreases n,
{
    if n <= 0 {
        Seq::empty()
    } else {
        let r = redrawn_rows(rows, prev, n - 1);
        if n - 1 >= prev.len() || !rows_same(rows[n - 1], prev[n - 1]) {
            r.push((n - 1) as usize)
        } else {
            r
        }
    }
}

/// The rows to draw over `prev` are, in increasing order, exactly the rows
/// that `prev` does not have and the rows that are not the same as the row at
/// the same index of `prev`.
pub proof fn law_redrawn_rows_exact(rows: Seq<Row>, prev: Seq<Row>)
    requires
        rows.len() <= usize::MAX,
    ensures
        forall|i: int|
            0 <= i < rows.len() ==> (#[trigger] redrawn_rows(rows, prev, rows.len() as int).contains(
                i as usize,
            ) <==> (i >= prev.len() || !rows_same(rows[i], prev[i]))),
        forall|k: int|
            0 <= k < redrawn_rows(rows, prev, rows.len() as int).len() ==> #[trigger] redrawn_rows(
                rows,
                prev,
                rows.len() as int,
            )[k] < rows.len(),
        forall|k1: int, k2: int|
            0 <= k1 < k2 < redrawn_rows(rows, prev, rows.len() as int).len() ==> #[trigger] redrawn_rows(
                rows,
                prev,
                rows.len() as int,
            )[k1] < #[trigger] redrawn_rows(rows, prev, rows.len() as int)[k2],
{
    lemma_redrawn_rows_exact(rows, prev, rows.len() as int);
    assert forall|i: int|
        0 <= i < rows.len() implies (#[trigger] redrawn_rows(rows, prev, rows.len() as int).contains(
            i as usize,
        ) <==> (i >= prev.len() || !rows_same(rows[i], prev[i]))) by {
        lemma_redrawn_row(rows, prev, rows.len() as int, i);
    }
}

/// The indices listed among the first `n` rows are below `n` and increasing.
proof fn lemma_redrawn_rows_exact(rows: Seq<Row>, prev: Seq<Row>, n: int)
    requires
        0 <= n <= rows.len(),
        n <= usize::MAX,
    ensures
        forall|k: int|
            0 <= k < redrawn_rows(rows, prev, n).len() ==> #[trigger] redrawn_rows(rows, prev, n)[k]
                < n,
        forall|k1: int, k2: int|
            0 <= k1 < k2 < redrawn_rows(rows, prev, n).len() ==> #[trigger] redrawn_rows(
                rows,
                prev,
                n,
            )[k1] < #[trigger] redrawn_rows(rows, prev, n)[k2],
    decreases n,
{
    if n > 0 {
        lemma_redrawn_rows_exact(rows, prev, n - 1);
        let r = redrawn_rows(rows, prev, n - 1);
        let c = redrawn_rows(rows, prev, n);
        if n - 1 >= prev.len() || !rows_same(rows[n - 1], prev[n - 1]) {
            assert(c == r.push((n - 1) as usize));
            assert forall|k: int| 0 <= k < c.len() implies #[trigger] c[k] < n by {
                if k < r.len() {
                    assert(c[k] == r[k]);
                }
            }
            assert forall|k1: int, k2: int| 0 <= k1 < k2 < c.len() implies #[trigger] c[k1]
                < #[trigger] c[k2] by {
                assert(c[k1] == r[k1]);
                if k2 < r.len() {
                    assert(c[k2] == r[k2]);
                }
            }
        } else {
            assert(c == r);
        }
    }
}

/// Row `i` is listed among the first `n` rows to draw exactly where `prev`
/// does not have it or has another row there.
proof fn lemma_redrawn_row(rows: Seq<Row>, prev: Seq<Row>, n: int, i: int)
    requires
        0 <= i < n <= rows.len(),
        n <= usize::MAX,
    ensures
        redrawn_rows(rows, prev, n).contains(i as usize) <==> (i >= prev.len() || !rows_same(
            rows[i],
            prev[i],
        )),
    decreases n,
{
    let r = redrawn_rows(rows, prev, n - 1);
    let c = redrawn_rows(rows, prev, n);
    lemma_redrawn_rows_exact(rows, prev, n - 1);
    let differs = n - 1 >= prev.len() || !rows_same(rows[n - 1], prev[n - 1]);
    if i < n - 1 {
        lemma_redrawn_row(rows, prev, n - 1, i);
        if differs {
            assert(c == r.push((n - 1) as usize));
            if r.contains(i as usize) {
                let k = choose|k: int| 0 <= k < r.len() && r[k] == i as usize;
                assert(c[k] == i as usize);
            }
            if c.contains(i as usize) {
                let k = choose|k: int| 0 <= k < c.len() && c[k] == i as usize;
                assert(c[r.len() as int] == (n - 1) as usize);
                assert(k < r.len());
                assert(r[k] == i as usize);
            }
        } else {
            assert(c == r);
        }
    } else {
        if differs {
            assert(c == r.push((n - 1) as usize));
            assert(c[r.len() as int] == i as usize);
        } else {
            assert(c == r);
            if c.contains(i as usize) {
                let k = choose|k: int| 0 <= k < c.len() && c[k] == i as usize;
                assert(r[k] < n - 1);
            }
        }
    }
}

/// No row is drawn again over rows that are the same, one for one: drawing
/// the same rows twice writes nothing the second time.
pub proof fn law_no_rows_redrawn_over_same(rows: Seq<Row>, prev: Seq<Row>)
    requires
        rows.len() == prev.len(),
        forall|i: int| 0 <= i < rows.len() ==> #[trigger] rows_same(rows[i], prev[i]),
    ensures
        redrawn_rows(rows, prev, rows.len() as int) == Seq::<usize>::empty(),
{
    lemma_no_rows_redrawn(rows, prev, rows.len() as int);
}

proof fn lemma_no_rows_redrawn(rows: Seq<Row>, prev: Seq<Row>, n: int)
    requires
        n <= rows.len(),
        rows.len() == prev.len(),
        forall|i: int| 0 <= i < rows.len() ==> #[trigger] rows_same(rows[i], prev[i]),
    ensures
        redrawn_rows(rows, prev, n) == Seq::<usize>::empty(),
    decreases n,
{
    if n > 0 {
        lemma_no_rows_redrawn(rows, prev, n - 1);
        assert(rows_same(rows[n - 1], prev[n - 1]));
    }
}

/// Every row is the same as itself.
pub proof fn law_row_same_as_itself(r: Row)
    ensures
        rows_same(r, r),
{
}

/// Rows that are the same stay the same when both are truncated to the same
/// width, so closing the same row on two canvases gives rows that are not
/// drawn again.
pub proof fn law_truncations_of_same_rows_are_same(
    a_old: Row,
    b_old: Row,
    a_new: Row,
    b_new: Row,
    max_cols: nat,
)
    requires
        rows_same(a_old, b_old),
        is_truncation_of(a_new, a_old, max_cols),
        is_truncation_of(b_new, b_old, max_cols),
    ensures
        rows_same(a_new, b_new),
{
    assert forall|j: int| 0 <= j < a_old.texts@.len() implies a_old@[j] == b_old@[j] by {
        assert(texts_same(a_old.texts@[j], b_old.texts@[j]));
    }
    assert(a_old@ =~= b_old@);
    assert forall|j: int| 0 <= j < a_new.texts@.len() implies #[trigger] texts_same(
        a_new.texts@[j],
        b_new.texts@[j],
    ) by {
        assert(a_new@[j] == b_new@[j]);
        assert(texts_same(a_old.texts@[j], b_old.texts@[j]));
    }
}

/// Whether two rows hold the same texts.
fn rows_equal(a: &Row, b: &Row) -> (r: bool)
    ensures
        r == rows_same(*a, *b),
{
    let n = a.texts.len();
    if n != b.texts.len() {
        return false;
    }
    let mut i: usize = 0;
    while i < n
        invariant
            n == a.texts@.len(),
            n == b.texts@.len(),
            i <= n,
            forall|j: int| 0 <= j < i ==> #[trigger] texts_same(a.texts@[j], b.texts@[j]),
        decreases n - i,
    {
        let ta = &a.texts[i];
        let tb = &b.texts[i];
        if !(ta.text == tb.text && attributes_eq(&ta.attrs, &tb.attrs)) {
            assert(!texts_same(a.texts@[i as int], b.texts@[i as int]));
            return false;
        }
        i = i + 1;
    }
    true
}

/// What must be written to draw `rows` over a screen that shows `prev`: the
/// indices of the rows to draw, in order (as `redrawn_rows` gives them), and
/// the first index of the screen rows to clear, from which on up to the end of
/// `prev` nothing is drawn any more.
pub fn rows_to_redraw(rows: &Vec<Row>, prev: &Vec<Row>) -> (r: (Vec<usize>, usize))
    ensures
        r.0@ == redrawn_rows(rows@, prev@, rows@.len() as int),
        r.1 == rows@.len(),
{
    let n = rows.len();
    let m = prev.len();
    let mut out: Vec<usize> = Vec::new();
    let mut i: usize = 0;
    while i < n
        invariant
            n == rows@.len(),
            m == prev@.len(),
            i <= n,
            out@ == redrawn_rows(rows@, prev@, i as int),
        decreases n - i,
    {
        if i >= m || !rows_equal(&rows[i], &prev[i]) {
            out.push(i);
        }
        i = i + 1;
    }
    (out, n)
}

/// The abstract values of a sequence of texts.
pub open spec fn text_views(ts: Seq<Text>) -> Seq<TextView> {
    ts.map_values(|t: Text| t@)
}

/// The width of a row: the sum of the widths of its texts.
pub open spec fn row_cols(ts: Seq<TextView>) -> nat
    decreases ts.len(),
{
    if ts.len() == 0 {
        0
    } else {
        row_cols(ts.drop_last()) + (str_width(ts.last().text) as nat)
    }
}

/// Truncates the texts of a row from index `i` on, with `acc` columns before
/// it: a text that fits before `max_cols` is kept and counted; any other is
/// truncated to the columns left, and is not counted, so every later text that
/// does not fit is truncated to the same number of columns.
pub open spec fn row_truncated_from(t: Seq<TextView>, max_cols: nat, i: int, acc: nat) -> Seq<
    TextView,
>
    decreases t.len() - i,
{
    if i < 0 || i >= t.len() {
        t
    } else {
        let tc = str_width(t[i].text);
        if acc + tc < max_cols {
            row_truncated_from(t, max_cols, i + 1, (acc + tc) as nat)
        } else {
            row_truncated_from(
                t.update(
                    i,
                    TextView {
                        text: text_truncated(t[i].text, (max_cols - acc) as nat),
                        attrs: t[i].attrs,
                    },
                ),
                max_cols,
                i + 1,
                acc,
            )
        }
    }
}

/// The row truncated to `max_cols` columns.
pub open spec fn row_truncated(t: Seq<TextView>, max_cols: nat) -> Seq<TextView> {
    row_truncated_from(t, max_cols, 0, 0)
}

/// Whether `new` is `old` truncated to `max_cols` columns: its view is the
/// truncated view, and each of its texts keeps the attribute bitset of the
/// text it comes from.
pub open spec fn is_truncation_of(new: Row, old: Row, max_cols: nat) -> bool {
    &&& new@ == row_truncated(old@, max_cols)
    &&& new.texts@.len() == old.texts@.len()
    &&& forall|j: int|
        0 <= j < new.texts@.len() ==> (#[trigger] new.texts@[j]).attrs == old.texts@[j].attrs
}

/// Whether `row_truncated_from` runs without overflow and truncates only
/// through characters of known width.
pub open spec fn row_truncate_ok_from(t: Seq<TextView>, max_cols: nat, i: int, acc: nat) -> bool
    decreases t.len() - i,
{
    if i < 0 || i >= t.len() {
        true
    } else {
        let tc = str_width(t[i].text);
        &&& acc + tc <= usize::MAX
        &&& if acc + tc < max_cols {
            row_truncate_ok_from(t, max_cols, i + 1, (acc + tc) as nat)
        } else {
            &&& truncate_reaches(t[i].text, (max_cols - acc) as nat)
            &&& row_truncate_ok_from(t, max_cols, i + 1, acc)
        }
    }
}

/// Whether `row_truncated(t, max_cols)` can be computed.
pub open spec fn row_truncate_ok(t: Seq<TextView>, max_cols: nat) -> bool {
    row_truncate_ok_from(t, max_cols, 0, 0)
}

/// The row after `src` replaces it from column `col` on: the row is truncated
/// to `col` columns, padded with spaces up to `col` if narrower, and `src`'s
/// texts follow.
pub open spec fn row_replaced(t: Seq<TextView>, col: nat, src: Seq<TextView>) -> Seq<TextView> {
    let kept = row_truncated(t, col);
    let n = row_cols(kept);
    if col > n {
        kept.push(TextView { text: spaces((col - n) as nat), attrs: Set::empty() }) + src
    } else {
        kept + src
    }
}

/// Whether `row_replaced(t, col, _)` can be computed.
pub open spec fn row_replace_ok(t: Seq<TextView>, col: nat) -> bool {
    &&& row_truncate_ok(t, col)
    &&& row_cols(row_truncated(t, col)) <= usize::MAX
}

/// A row of texts, drawn from left to right.
#[derive(Debug, Default, PartialEq, Eq)]
pub struct Row {
    pub texts: Vec<Text>,
}

impl View for Row {
    type V = Seq<TextView>;

    open spec fn view(&self) -> Seq<TextView> {
        text_views(self.texts@)
    }
}

/// The width of a prefix of a row is at most the width of the row.
proof fn lemma_row_cols_prefix_le(t: Seq<TextView>, k: int)
    requires
        0 <= k <= t.len(),
    ensures
        row_cols(t.take(k)) <= row_cols(t),
    decreases t.len() - k,
{
    if k < t.len() {
        lemma_row_cols_prefix_le(t, k + 1);
        assert(t.take(k + 1).drop_last() =~= t.take(k));
    } else {
        assert(t.take(k) =~= t);
    }
}

impl Row {
    /// An empty row.
    pub fn empty() -> (r: Row)
        ensures
            r@ == Seq::<TextView>::empty(),
    {
        let r = Row { texts: Vec::new() };
        assert(r@ =~= Seq::<TextView>::empty());
        r
    }

    /// Replaces the row from column `col` on with the texts of `src`.
    pub fn replace(&mut self, col: usize, src: Row)
        requires
            row_replace_ok(old(self)@, col as nat),
        ensures
            final(self)@ == row_replaced(old(self)@, col as nat, src@),
    {
        let mut src = src;
        let ghost src0 = src@;
        self.truncate(col);
        let n = self.cols();
        let ghost kept = self@;
        if col > n {
            let pad = spaces_string(col - n);
            self.texts.push(Text::new(pad.as_str()));
            assert(self@ =~= kept.push(TextView { text: spaces((col - n) as nat), attrs: Set::empty() }));
        }
        let ghost before = self@;
        self.texts.append(&mut src.texts);
        assert(self@ =~= before + src0);
    }

    /// Truncates the row to `max_cols` columns, as `row_truncated` describes.
    pub fn truncate(&mut self, max_cols: usize)
        requires
            row_truncate_ok(old(self)@, max_cols as nat),
        ensures
            is_truncation_of(*final(self), *old(self), max_cols as nat),
    {
        let ghost t0 = self@;
        let n = self.texts.len();
        let mut acc: usize = 0;
        let mut i: usize = 0;
        while i < n
            invariant
                n == self.texts@.len(),
                t0 == old(self)@,
                i <= n,
                acc <= max_cols,
                row_truncated_from(self@, max_cols as nat, i as int, acc as nat) == row_truncated(t0, max_cols as nat),
                row_truncate_ok_from(self@, max_cols as nat, i as int, acc as nat),
                forall|j: int| i <= j < n ==> (#[trigger] self@[j]) == t0[j],
                forall|j: int|
                    0 <= j < n ==> (#[trigger] self.texts@[j]).attrs == old(self).texts@[j].attrs,
            decreases n - i,
        {
            let ghost cur = self@;
            let text_cols = self.texts[i].cols();
            assert(self.texts@[i as int]@ == cur[i as int]);
            if acc + text_cols < max_cols {
                acc = acc + text_cols;
                i = i + 1;
                continue;
            }
            let mut text = Text::new("");
            std::mem::swap(&mut text, &mut self.texts[i]);
            text.truncate(max_cols - acc);
            self.texts.set(i, text);
            assert(self@ =~= cur.update(
                i as int,
                TextView {
                    text: text_truncated(cur[i as int].text, (max_cols - acc) as nat),
                    attrs: cur[i as int].attrs,
                },
            ));
            assert(forall|j: int| i < j < n ==> self@[j] == cur[j]);
            proof {
                lemma_truncate_ok_frame(cur, self@, max_cols as nat, i + 1, acc as nat);
            }
            i = i + 1;
        }
    }

    /// The width of the row in columns: the sum of its texts' widths.
    pub fn cols(&self) -> (r: usize)
        requires
            row_cols(self@) <= usize::MAX,
        ensures
            r == row_cols(self@),
    {
        let mut sum: usize = 0;
        let mut i: usize = 0;
        let n = self.texts.len();
        while i < n
            invariant
                n == self.texts.len(),
                i <= n,
                row_cols(self@) <= usize::MAX,
                sum == row_cols(self@.take(i as int)),
            decreases n - i,
        {
            proof {
                lemma_row_cols_prefix_le(self@, (i + 1) as int);
                assert(self@.take(i + 1).drop_last() =~= self@.take(i as int));
            }
            let w = self.texts[i].cols();
            sum = sum + w;
            i = i + 1;
        }
        assert(self@.take(n as int) =~= self@);
        sum
    }
}

/// The scan of a row from index `i` on reads only the texts from `i` on.
proof fn lemma_truncate_ok_frame(a: Seq<TextView>, b: Seq<TextView>, max_cols: nat, i: int, acc: nat)
    requires
        a.len() == b.len(),
        0 <= i,
        forall|j: int| i <= j < a.len() ==> a[j] == b[j],
        row_truncate_ok_from(a, max_cols, i, acc),
    ensures
        row_truncate_ok_from(b, max_cols, i, acc),
    decreases a.len() - i,
{
    if i < a.len() {
        let tc = str_width(a[i].text);
        if acc + tc < max_cols {
            lemma_truncate_ok_frame(a, b, max_cols, i + 1, (acc + tc) as nat);
        } else {
            lemma_truncate_ok_frame(a, b, max_cols, i + 1, acc);
        }
    }
}

/// The abstract values of a sequence of rows.
pub open spec fn rows_view(rows: Seq<Row>) -> Seq<Seq<TextView>> {
    rows.map_values(|r: Row| r@)
}

/// The rows extended with empty rows up to `n` rows, if there are fewer.
pub open spec fn extended_rows(rows: Seq<Seq<TextView>>, n: nat) -> Seq<Seq<TextView>> {
    if rows.len() >= n {
        rows
    } else {
        rows + Seq::new((n - rows.len()) as nat, |_k: int| Seq::<TextView>::empty())
    }
}

/// The rows after the rows `src` are drawn over them from row `row` and
/// column `col` on: each source row, in turn, replaces its destination row
/// from `col` on, the destination rows being created empty where missing.
pub open spec fn canvas_drawn(
    rows: Seq<Seq<TextView>>,
    row: nat,
    col: nat,
    src: Seq<Seq<TextView>>,
) -> Seq<Seq<TextView>>
    decreases src.len(),
{
    if src.len() == 0 {
        rows
    } else {
        let before = canvas_drawn(rows, row, col, src.drop_last());
        let i = row + src.len() - 1;
        let ext = extended_rows(before, (i + 1) as nat);
        ext.update(i, row_replaced(ext[i], col, src.last()))
    }
}

/// Drawing rows `src` from row `row` and column `col` on: every source row `k`,
/// empty or not, replaces its destination row `row + k` from `col` on (an
/// empty row stands where the destination had none), the other rows stay as
/// they were, and there are rows up to the last one drawn, or as many as
/// before where there were more.
pub proof fn law_draw_canvas_replaces_each_row(
    rows: Seq<Seq<TextView>>,
    row: nat,
    col: nat,
    src: Seq<Seq<TextView>>,
)
    ensures
        ({
            let r = canvas_drawn(rows, row, col, src);
            &&& r.len() == (if src.len() == 0 || rows.len() >= row + src.len() {
                rows.len()
            } else {
                row + src.len()
            })
            &&& forall|k: int|
                0 <= k < src.len() ==> #[trigger] r[row + k] == row_replaced(
                    if row + k < rows.len() {
                        rows[row + k]
                    } else {
                        Seq::<TextView>::empty()
                    },
                    col,
                    src[k],
                )
            &&& forall|j: int|
                0 <= j < r.len() && !(row <= j < row + src.len()) ==> #[trigger] r[j] == (
                if j < rows.len() {
                    rows[j]
                } else {
                    Seq::<TextView>::empty()
                })
        }),
    decreases src.len(),
{
    if src.len() > 0 {
        let s0 = src.drop_last();
        law_draw_canvas_replaces_each_row(rows, row, col, s0);
        let before = canvas_drawn(rows, row, col, s0);
        let i = row + src.len() - 1;
        let ext = extended_rows(before, (i + 1) as nat);
        let r = canvas_drawn(rows, row, col, src);
        assert(r == ext.update(i, row_replaced(ext[i], col, src.last())));
        let old_i = if i < rows.len() {
            rows[i]
        } else {
            Seq::<TextView>::empty()
        };
        assert(ext[i] == old_i) by {
            if i < before.len() {
                assert(!(row <= i < row + s0.len()));
                assert(before[i] == old_i);
            }
        }
        assert forall|k: int| 0 <= k < src.len() implies #[trigger] r[row + k] == row_replaced(
            if row + k < rows.len() {
                rows[row + k]
            } else {
                Seq::<TextView>::empty()
            },
            col,
            src[k],
        ) by {
            if k < src.len() - 1 {
                assert(src[k] == s0[k]);
                assert(before[row + k] == row_replaced(
                    if row + k < rows.len() {
                        rows[row + k]
                    } else {
                        Seq::<TextView>::empty()
                    },
                    col,
                    s0[k],
                ));
            }
        }
        assert forall|j: int| 0 <= j < r.len() && !(row <= j < row + src.len()) implies #[trigger] r[j]
            == (if j < rows.len() {
            rows[j]
        } else {
            Seq::<TextView>::empty()
        }) by {
            if j < before.len() {
                assert(before[j] == (if j < rows.len() {
                    rows[j]
                } else {
                    Seq::<TextView>::empty()
                }));
            }
        }
    }
}

/// Replacing a row from a column on keeps the row's truncation to that column
/// at the front and puts the source texts at the end, with at most one text
/// of padding in between.
pub proof fn law_row_replaced_shape(t: Seq<TextView>, col: nat, src: Seq<TextView>)
    ensures
        ({
            let r = row_replaced(t, col, src);
            let kept = row_truncated(t, col);
            &&& kept.len() + src.len() <= r.len() <= kept.len() + src.len() + 1
            &&& r.take(kept.len() as int) == kept
            &&& r.skip(r.len() - src.len()) == src
        }),
{
    let r = row_replaced(t, col, src);
    let kept = row_truncated(t, col);
    let n = row_cols(kept);
    if col > n {
        let pad = TextView { text: spaces((col - n) as nat), attrs: Set::empty() };
        assert(r == kept.push(pad) + src);
        assert(r.take(kept.len() as int) =~= kept);
        assert(r.skip(r.len() - src.len()) =~= src);
    } else {
        assert(r.take(kept.len() as int) =~= kept);
        assert(r.skip(r.len() - src.len()) =~= src);
    }
}

/// Whether `canvas_drawn(rows, row, col, src)` can be computed.
pub open spec fn canvas_draw_ok(
    rows: Seq<Seq<TextView>>,
    row: nat,
    col: nat,
    src: Seq<Seq<TextView>>,
) -> bool
    decreases src.len(),
{
    if src.len() == 0 {
        true
    } else {
        let before = canvas_drawn(rows, row, col, src.drop_last());
        let i = row + src.len() - 1;
        &&& canvas_draw_ok(rows, row, col, src.drop_last())
        &&& i <= usize::MAX
        &&& row_replace_ok(extended_rows(before, (i + 1) as nat)[i], col)
    }
}

/// A canvas of rows of texts, filled a row at a time: texts go into the
/// current row until a newline closes it.
#[derive(Debug, Default)]
pub struct Canvas {
    current_row: Row,
    pub rows: Vec<Row>,
    max_cols: usize,
}

impl Canvas {
    /// The closed rows.
    pub closed spec fn rows_seq(&self) -> Seq<Row> {
        self.rows@
    }

    /// The texts of the row being filled.
    pub closed spec fn current_row_view(&self) -> Seq<TextView> {
        self.current_row@
    }

    /// The row being filled.
    pub closed spec fn current_row_seq(&self) -> Row {
        self.current_row
    }

    /// The row being filled holds the texts that its view shows.
    pub proof fn lemma_current_row_view(&self)
        ensures
            self.current_row_seq()@ == self.current_row_view(),
    {
    }

    /// The width to which rows are truncated when they are closed.
    pub closed spec fn max_cols_view(&self) -> usize {
        self.max_cols
    }

    /// An empty canvas whose rows are truncated to `max_cols` columns.
    pub fn new(max_cols: usize) -> (c: Canvas)
        ensures
            c.current_row_view() == Seq::<TextView>::empty(),
            c.rows_seq() == Seq::<Row>::empty(),
            c.max_cols_view() == max_cols,
    {
        Canvas { current_row: Row::empty(), rows: Vec::new(), max_cols }
    }

    /// Drops the first `offset` rows and keeps at most `rows` of the others.
    pub fn clip(&mut self, offset: usize, rows: usize)
        requires
            offset <= old(self).rows_seq().len(),
        ensures
            final(self).rows_seq() == old(self).rows_seq().skip(offset as int).take(
                if rows <= old(self).rows_seq().len() - offset {
                    rows as int
                } else {
                    old(self).rows_seq().len() - offset
                },
            ),
            final(self).current_row_view() == old(self).current_row_view(),
            final(self).max_cols_view() == old(self).max_cols_view(),
    {
        let rest = self.rows.split_off(offset);
        self.rows = rest;
        self.rows.truncate(rows);
        assert(self.rows@ =~= old(self).rows_seq().skip(offset as int).take(
            if rows <= old(self).rows_seq().len() - offset {
                rows as int
            } else {
                old(self).rows_seq().len() - offset
            },
        ));
    }

    /// Draws the rows of `canvas` over this canvas's rows, from `position` on;
    /// `canvas`'s unfinished current row is not drawn.
    pub fn draw_canvas(&mut self, position: Position, canvas: Canvas)
        requires
            canvas_draw_ok(
                rows_view(old(self).rows_seq()),
                position.row as nat,
                position.col as nat,
                rows_view(canvas.rows_seq()),
            ),
        ensures
            rows_view(final(self).rows_seq()) == canvas_drawn(
                rows_view(old(self).rows_seq()),
                position.row as nat,
                position.col as nat,
                rows_view(canvas.rows_seq()),
            ),
            final(self).current_row_view() == old(self).current_row_view(),
            final(self).max_cols_view() == old(self).max_cols_view(),
    {
        let ghost rows0 = rows_view(self.rows@);
        let ghost src0 = rows_view(canvas.rows_seq());
        let mut src_rows = canvas.rows;
        let n = src_rows.len();
        let mut k: usize = 0;
        assert(src0.take(0) =~= Seq::<Seq<TextView>>::empty());
        while k < n
            invariant
                n == src_rows@.len(),
                src0.len() == n,
                k <= n,
                canvas_draw_ok(rows0, position.row as nat, position.col as nat, src0),
                forall|j: int| k <= j < n ==> (#[trigger] src_rows@[j])@ == src0[j],
                rows_view(self.rows@) == canvas_drawn(
                    rows0,
                    position.row as nat,
                    position.col as nat,
                    src0.take(k as int),
                ),
                self.current_row_view() == old(self).current_row_view(),
                self.max_cols_view() == old(self).max_cols_view(),
            decreases n - k,
        {
            proof {
                lemma_canvas_draw_ok_prefix(rows0, position.row as nat, position.col as nat, src0, k + 1);
                assert(src0.take(k + 1).drop_last() =~= src0.take(k as int));
                assert(src0.take(k + 1).last() == src0[k as int]);
            }
            let row_i = k + position.row;
            let ghost before = rows_view(self.rows@);
            while self.rows.len() <= row_i
                invariant
                    before.len() <= self.rows@.len(),
                    self.rows@.len() <= row_i + 1 || self.rows@.len() == before.len(),
                    rows_view(self.rows@) == extended_rows(before, self.rows@.len() as nat),
                    self.current_row_view() == old(self).current_row_view(),
                    self.max_cols_view() == old(self).max_cols_view(),
                decreases row_i + 1 - self.rows@.len(),
            {
                let ghost prev = rows_view(self.rows@);
                self.rows.push(Row::empty());
                assert(rows_view(self.rows@) =~= prev.push(Seq::<TextView>::empty()));
                assert(extended_rows(before, self.rows@.len() as nat) =~= extended_rows(
                    before,
                    (self.rows@.len() - 1) as nat,
                ).push(Seq::<TextView>::empty()));
            }
            assert(rows_view(self.rows@) =~= extended_rows(before, (row_i + 1) as nat));
            let mut src_row = Row::empty();
            std::mem::swap(&mut src_row, &mut src_rows[k]);
            let mut dst = Row::empty();
            std::mem::swap(&mut dst, &mut self.rows[row_i]);
            let ghost ext = rows_view(self.rows@);
            dst.replace(position.col, src_row);
            self.rows.set(row_i, dst);
            k = k + 1;
            assert(rows_view(self.rows@) =~= canvas_drawn(
                rows0,
                position.row as nat,
                position.col as nat,
                src0.take(k as int),
            ));
        }
        assert(src0.take(n as int) =~= src0);
    }

    /// Adds `text` to the current row.
    pub fn draw_text(&mut self, text: Text)
        ensures
            final(self).current_row_view() == old(self).current_row_view().push(text@),
            final(self).rows_seq() == old(self).rows_seq(),
            final(self).max_cols_view() == old(self).max_cols_view(),
    {
        self.current_row.texts.push(text);
        assert(self.current_row@ =~= old(self).current_row@.push(text@));
    }

    /// Adds `text` to the current row and closes the row.
    pub fn draw_textl(&mut self, text: Text)
        requires
            row_truncate_ok(old(self).current_row_view().push(text@), old(self).max_cols_view() as nat),
        ensures
            rows_view(final(self).rows_seq()) == rows_view(old(self).rows_seq()).push(
                row_truncated(
                    old(self).current_row_view().push(text@),
                    old(self).max_cols_view() as nat,
                ),
            ),
            final(self).current_row_view() == Seq::<TextView>::empty(),
            final(self).max_cols_view() == old(self).max_cols_view(),
    {
        self.draw_text(text);
        self.draw_newline();
    }

    /// Closes the current row: truncates it to the canvas width, appends it to
    /// the rows and starts an empty row.
    pub fn draw_newline(&mut self)
        requires
            row_truncate_ok(old(self).current_row_view(), old(self).max_cols_view() as nat),
        ensures
            rows_view(final(self).rows_seq()) == rows_view(old(self).rows_seq()).push(
                row_truncated(old(self).current_row_view(), old(self).max_cols_view() as nat),
            ),
            final(self).rows_seq().len() == old(self).rows_seq().len() + 1,
            forall|i: int|
                0 <= i < old(self).rows_seq().len() ==> #[trigger] final(self).rows_seq()[i]
                    == old(self).rows_seq()[i],
            is_truncation_of(
                final(self).rows_seq().last(),
                old(self).current_row_seq(),
                old(self).max_cols_view() as nat,
            ),
            final(self).current_row_view() == Seq::<TextView>::empty(),
            final(self).max_cols_view() == old(self).max_cols_view(),
    {
        let mut last_row = Row::empty();
        std::mem::swap(&mut last_row, &mut self.current_row);
        last_row.truncate(self.max_cols);
        self.rows.push(last_row);
        assert(rows_view(self.rows@) =~= rows_view(old(self).rows_seq()).push(
            row_truncated(old(self).current_row@, old(self).max_cols as nat),
        ));
    }

    /// The number of rows, counting the current one.
    pub fn rows(&self) -> (r: usize)
        requires
            self.rows_seq().len() < usize::MAX,
        ensures
            r == self.rows_seq().len() + 1,
    {
        self.rows.len() + 1
    }
}

/// The rows of a draw that can be computed can be computed up to any of them.
proof fn lemma_canvas_draw_ok_prefix(
    rows: Seq<Seq<TextView>>,
    row: nat,
    col: nat,
    src: Seq<Seq<TextView>>,
    k: int,
)
    requires
        0 <= k <= src.len(),
        canvas_draw_ok(rows, row, col, src),
    ensures
        canvas_draw_ok(rows, row, col, src.take(k)),
    decreases src.len() - k,
{
    if k < src.len() {
        assert(src.drop_last() =~= src.take(src.len() - 1));
        lemma_canvas_draw_ok_prefix(rows, row, col, src.drop_last(), k);
        assert(src.drop_last().take(k) =~= src.take(k));
    } else {
        assert(src.take(k) =~= src);
    }
}

/// The width of a character followed by a sequence.
proof fn lemma_chars_width_cons(c: char, t: Seq<char>)
    ensures
        chars_width(seq![c] + t) == width_or_zero(c) + chars_width(t),
{
    assert((seq![c] + t).drop_first() =~= t);
    assert((seq![c] + t)[0] == c);
}

/// `n` ellipses are `n` columns wide where an ellipsis is one column wide.
proof fn lemma_ellipses_width(n: nat)
    requires
        char_width(ELLIPSIS) == Some(1usize),
    ensures
        chars_width(ellipses(n)) == n,
    decreases n,
{
    if n > 0 {
        lemma_ellipses_width((n - 1) as nat);
        assert(ellipses(n).drop_first() =~= ellipses((n - 1) as nat));
    }
}

/// Cutting a text after `col` columns gives a first part exactly `col`
/// columns wide, or the whole text where it is narrower: a character that
/// straddles the cut is replaced by ellipses, one column each.
pub proof fn law_split_prefix_width(s: Seq<char>, col: nat)
    requires
        split_reaches(s, col),
        char_width(ELLIPSIS) == Some(1usize),
    ensures
        chars_width(split_at_cols(s, col).0) == if col <= chars_width(s) {
            col
        } else {
            chars_width(s)
        },
    decreases s.len(),
{
    if col == 0 {
    } else if s.len() == 0 {
    } else {
        let w = width_or_zero(s[0]);
        if w > col {
            lemma_ellipses_width(col);
        } else {
            law_split_prefix_width(s.drop_first(), (col - w) as nat);
            lemma_chars_width_cons(s[0], split_at_cols(s.drop_first(), (col - w) as nat).0);
        }
    }
}

/// For a text of one-column characters, the cut after `col` columns keeps the
/// first `col` characters and hands out the others, and the two parts make up
/// the text again.
pub proof fn law_split_one_column_text(s: Seq<char>, col: nat)
    requires
        forall|i: int| 0 <= i < s.len() ==> #[trigger] char_width(s[i]) == Some(1usize),
    ensures
        ({
            let k = if col <= s.len() {
                col as int
            } else {
                s.len() as int
            };
            &&& split_at_cols(s, col).0 == s.take(k)
            &&& split_at_cols(s, col).1 == s.skip(k)
            &&& split_at_cols(s, col).0 + split_at_cols(s, col).1 == s
        }),
    decreases s.len(),
{
    if col == 0 {
        assert(s.take(0) =~= Seq::<char>::empty());
        assert(s.skip(0) =~= s);
    } else if s.len() == 0 {
        assert(s.take(0) =~= Seq::<char>::empty());
        assert(s.skip(0) =~= s);
    } else {
        let t = s.drop_first();
        assert(char_width(s[0]) == Some(1usize));
        assert forall|i: int| 0 <= i < t.len() implies #[trigger] char_width(t[i]) == Some(1usize) by {
            assert(t[i] == s[i + 1]);
        }
        law_split_one_column_text(t, (col - 1) as nat);
        let k = if col <= s.len() {
            col as int
        } else {
            s.len() as int
        };
        assert(seq![s[0]] + t.take(k - 1) =~= s.take(k));
        assert(t.skip(k - 1) =~= s.skip(k));
        assert(s.take(k) + s.skip(k) =~= s);
    }
}

/// A truncated text is a prefix of the text, and narrower than the limit
/// unless it is empty.
pub proof fn law_truncated_is_narrower_prefix(s: Seq<char>, max_cols: nat)
    ensures
        text_truncated(s, max_cols).len() <= s.len(),
        text_truncated(s, max_cols) == s.take(text_truncated(s, max_cols).len() as int),
        text_truncated(s, max_cols).len() == 0 || chars_width(text_truncated(s, max_cols))
            < max_cols,
    decreases s.len(),
{
    if s.len() > 0 {
        let w = width_or_zero(s[0]);
        if w >= max_cols {
            assert(s.take(0) =~= Seq::<char>::empty());
        } else {
            let t = s.drop_first();
            law_truncated_is_narrower_prefix(t, (max_cols - w) as nat);
            let r = text_truncated(t, (max_cols - w) as nat);
            lemma_chars_width_cons(s[0], r);
            assert(seq![s[0]] + t.take(r.len() as int) =~= s.take(r.len() as int + 1));
        }
    } else {
        assert(s.take(0) =~= s);
    }
}

/// The lines to redraw over `prev` are, in increasing order, exactly the
/// lines that differ from the line at the same index of `prev`, and the lines
/// that `prev` does not have.
pub proof fn law_dirty_indices_exact(lines: Seq<FrameLine>, prev: Seq<FrameLine>)
    requires
        lines.len() <= usize::MAX,
    ensures
        forall|i: int|
            0 <= i < lines.len() ==> (#[trigger] dirty_indices(lines, prev).contains(i as usize)
                <==> (i >= prev.len() || lines[i]@ != prev[i]@)),
        forall|k: int|
            0 <= k < dirty_indices(lines, prev).len() ==> #[trigger] dirty_indices(lines, prev)[k]
                < lines.len(),
        forall|k1: int, k2: int|
            0 <= k1 < k2 < dirty_indices(lines, prev).len() ==> #[trigger] dirty_indices(
                lines,
                prev,
            )[k1] < #[trigger] dirty_indices(lines, prev)[k2],
{
    let common = if lines.len() <= prev.len() {
        lines.len()
    } else {
        prev.len()
    };
    let c = changed_lines(lines, prev, common as int);
    let tail = Seq::new((lines.len() - common) as nat, |k: int| (prev.len() + k) as usize);
    let d = dirty_indices(lines, prev);
    lemma_changed_lines_exact(lines, prev, common as int);
    assert(d == c + tail);
    assert forall|i: int|
        0 <= i < lines.len() implies (#[trigger] dirty_indices(lines, prev).contains(i as usize)
            <==> (i >= prev.len() || lines[i]@ != prev[i]@)) by {
        lemma_dirty_index(lines, prev, i);
    }
    assert forall|k1: int, k2: int|
        0 <= k1 < k2 < d.len() implies #[trigger] d[k1] < #[trigger] d[k2] by {
        if k2 < c.len() {
        } else if k1 < c.len() {
            assert(d[k2] == tail[k2 - c.len()]);
        } else {
            assert(d[k1] == tail[k1 - c.len()]);
            assert(d[k2] == tail[k2 - c.len()]);
        }
    }
    assert forall|k: int| 0 <= k < d.len() implies #[trigger] d[k] < lines.len() by {
        if k >= c.len() {
            assert(d[k] == tail[k - c.len()]);
        }
    }
}

/// Whether line `i` is listed among the lines to redraw.
proof fn lemma_dirty_index(lines: Seq<FrameLine>, prev: Seq<FrameLine>, i: int)
    requires
        lines.len() <= usize::MAX,
        0 <= i < lines.len(),
    ensures
        dirty_indices(lines, prev).contains(i as usize) <==> (i >= prev.len() || lines[i]@
            != prev[i]@),
{
    let common = if lines.len() <= prev.len() {
        lines.len()
    } else {
        prev.len()
    };
    let c = changed_lines(lines, prev, common as int);
    let tail = Seq::new((lines.len() - common) as nat, |k: int| (prev.len() + k) as usize);
    let d = dirty_indices(lines, prev);
    lemma_changed_lines_exact(lines, prev, common as int);
    assert(d == c + tail);
    if i < common {
        if lines[i]@ != prev[i]@ {
            assert(c.contains(i as usize));
            let k = choose|k: int| 0 <= k < c.len() && c[k] == i as usize;
            assert(d[k] == i as usize);
        }
        if d.contains(i as usize) {
            let k = choose|k: int| 0 <= k < d.len() && d[k] == i as usize;
            if k >= c.len() {
                assert(d[k] == tail[k - c.len()]);
            } else {
                assert(c[k] == i as usize);
            }
        }
    } else {
        assert(tail[i - common] == i as usize);
        assert(d[c.len() + (i - common)] == i as usize);
    }
}

/// The lines among the first `n` that differ from `prev`'s are listed
/// exactly, in increasing order.
proof fn lemma_changed_lines_exact(lines: Seq<FrameLine>, prev: Seq<FrameLine>, n: int)
    requires
        0 <= n <= lines.len(),
        n <= usize::MAX,
        n <= prev.len(),
    ensures
        forall|i: int|
            0 <= i < n ==> (changed_lines(lines, prev, n).contains(i as usize) <==> lines[i]@
                != prev[i]@),
        forall|k: int|
            0 <= k < changed_lines(lines, prev, n).len() ==> #[trigger] changed_lines(
                lines,
                prev,
                n,
            )[k] < n,
        forall|k1: int, k2: int|
            0 <= k1 < k2 < changed_lines(lines, prev, n).len() ==> #[trigger] changed_lines(
                lines,
                prev,
                n,
            )[k1] < #[trigger] changed_lines(lines, prev, n)[k2],
    decreases n,
{
    if n > 0 {
        lemma_changed_lines_exact(lines, prev, n - 1);
        let r = changed_lines(lines, prev, n - 1);
        let c = changed_lines(lines, prev, n);
        assert forall|i: int| 0 <= i < n implies (c.contains(i as usize) <==> lines[i]@
            != prev[i]@) by {
            if lines[n - 1]@ != prev[n - 1]@ {
                assert(c == r.push((n - 1) as usize));
                if i < n - 1 {
                    if r.contains(i as usize) {
                        let k = choose|k: int| 0 <= k < r.len() && r[k] == i as usize;
                        assert(c[k] == i as usize);
                    }
                    if c.contains(i as usize) {
                        let k = choose|k: int| 0 <= k < c.len() && c[k] == i as usize;
                        assert(c[r.len() as int] == (n - 1) as usize);
                        assert(k < r.len());
                        assert(r[k] == i as usize);
                    }
                } else {
                    assert(c[r.len() as int] == (n - 1) as usize);
                }
            } else {
                assert(c == r);
                if i == n - 1 && c.contains(i as usize) {
                    let k = choose|k: int| 0 <= k < c.len() && c[k] == i as usize;
                    assert(r[k] < n - 1);
                }
            }
        }
    }
}

/// Truncating a row keeps its number of texts and each text's attributes,
/// leaves each text a prefix of what it was, and leaves a row narrower than
/// the limit as it is.
pub proof fn law_row_truncated_shape(t: Seq<TextView>, max_cols: nat)
    ensures
        ({
            let r = row_truncated(t, max_cols);
            &&& r.len() == t.len()
            &&& forall|j: int|
                0 <= j < t.len() ==> {
                    &&& (#[trigger] r[j]).attrs == t[j].attrs
                    &&& r[j].text.len() <= t[j].text.len()
                    &&& r[j].text == t[j].text.take(r[j].text.len() as int)
                }
            &&& row_cols(t) < max_cols ==> r == t
        }),
{
    lemma_row_truncated_from_shape(t, max_cols, 0, 0);
    if row_cols(t) < max_cols {
        assert(t.take(0) =~= Seq::<TextView>::empty());
        lemma_row_truncated_from_unchanged(t, max_cols, 0, 0);
    }
}

proof fn lemma_row_truncated_from_shape(t: Seq<TextView>, max_cols: nat, i: int, acc: nat)
    requires
        0 <= i,
    ensures
        ({
            let r = row_truncated_from(t, max_cols, i, acc);
            &&& r.len() == t.len()
            &&& forall|j: int|
                0 <= j < t.len() ==> {
                    &&& (#[trigger] r[j]).attrs == t[j].attrs
                    &&& r[j].text.len() <= t[j].text.len()
                    &&& r[j].text == t[j].text.take(r[j].text.len() as int)
                }
        }),
    decreases t.len() - i,
{
    if i < t.len() {
        let tc = str_width(t[i].text);
        if acc + tc < max_cols {
            lemma_row_truncated_from_shape(t, max_cols, i + 1, (acc + tc) as nat);
        } else {
            let cut = text_truncated(t[i].text, (max_cols - acc) as nat);
            law_truncated_is_narrower_prefix(t[i].text, (max_cols - acc) as nat);
            let u = t.update(i, TextView { text: cut, attrs: t[i].attrs });
            lemma_row_truncated_from_shape(u, max_cols, i + 1, acc);
            let r = row_truncated_from(u, max_cols, i + 1, acc);
            assert forall|j: int| 0 <= j < t.len() implies {
                &&& (#[trigger] r[j]).attrs == t[j].attrs
                &&& r[j].text.len() <= t[j].text.len()
                &&& r[j].text == t[j].text.take(r[j].text.len() as int)
            } by {
                if j == i {
                    assert(r[j].text == cut.take(r[j].text.len() as int));
                    assert(cut == t[j].text.take(cut.len() as int));
                    assert(r[j].text =~= t[j].text.take(r[j].text.len() as int));
                }
            }
        }
    } else {
        assert forall|j: int| 0 <= j < t.len() implies t[j].text == t[j].text.take(
            t[j].text.len() as int,
        ) by {
            assert(t[j].text.take(t[j].text.len() as int) =~= t[j].text);
        }
    }
}

proof fn lemma_row_truncated_from_unchanged(t: Seq<TextView>, max_cols: nat, i: int, acc: nat)
    requires
        0 <= i <= t.len(),
        acc == row_cols(t.take(i)),
        row_cols(t) < max_cols,
    ensures
        row_truncated_from(t, max_cols, i, acc) == t,
    decreases t.len() - i,
{
    if i < t.len() {
        assert(t.take(i + 1).drop_last() =~= t.take(i));
        lemma_row_cols_prefix_le(t, i + 1);
        lemma_row_truncated_from_unchanged(t, max_cols, i + 1, row_cols(t.take(i + 1)));
    }
}

/// No line of a frame needs redrawing over an identical frame.
pub proof fn law_no_dirty_lines_over_itself(lines: Seq<FrameLine>)
    ensures
        dirty_indices(lines, lines) == Seq::<usize>::empty(),
{
    lemma_no_changed_lines(lines, lines.len() as int);
    assert(dirty_indices(lines, lines) =~= Seq::<usize>::empty());
}

proof fn lemma_no_changed_lines(lines: Seq<FrameLine>, n: int)
    requires
        n <= lines.len(),
    ensures
        changed_lines(lines, lines, n) == Seq::<usize>::empty(),
    decreases n,
{
    if n > 0 {
        lemma_no_changed_lines(lines, n - 1);
    }
}

/// Over an empty frame, every line needs drawing, in order.
pub proof fn law_all_lines_dirty_over_empty(lines: Seq<FrameLine>)
    ensures
        dirty_indices(lines, Seq::<FrameLine>::empty()) == Seq::new(
            lines.len(),
            |k: int| k as usize,
        ),
{
    assert(dirty_indices(lines, Seq::<FrameLine>::empty()) =~= Seq::new(
        lines.len(),
        |k: int| k as usize,
    ));
}

/// Whether cutting `s` after `col` columns examines only characters of known
/// width, found by asking `unicode-width` for the width of each character up
/// to the cut.
pub fn can_split(s: &str, col: usize) -> (r: bool)
    ensures
        r == split_reaches(s@, col as nat),
{
    let n = s.unicode_len();
    let mut i: usize = 0;
    let mut rem: usize = col;
    assert(s@.skip(0) =~= s@);
    while i < n
        invariant
            n == s@.len(),
            i <= n,
            split_reaches(s@, col as nat) == split_reaches(s@.skip(i as int), rem as nat),
        decreases n - i,
    {
        if rem == 0 {
            return true;
        }
        let c = s.get_char(i);
        assert(s@.skip(i as int)[0] == c);
        assert(s@.skip(i as int).drop_first() =~= s@.skip(i + 1));
        match char_width_of(c) {
            None => {
                return false;
            },
            Some(w) => {
                if w > rem {
                    return true;
                }
                rem = rem - w;
            },
        }
        i = i + 1;
    }
    assert(s@.skip(n as int).len() == 0);
    true
}

/// Whether truncating `s` to `max_cols` columns examines only characters of
/// known width, found by asking `unicode-width` for the width of each
/// character up to the cut.
pub fn can_truncate(s: &str, max_cols: usize) -> (r: bool)
    ensures
        r == truncate_reaches(s@, max_cols as nat),
{
    let n = s.unicode_len();
    let mut i: usize = 0;
    let mut rem: usize = max_cols;
    assert(s@.skip(0) =~= s@);
    while i < n
        invariant
            n == s@.len(),
            i <= n,
            truncate_reaches(s@, max_cols as nat) == truncate_reaches(s@.skip(i as int), rem as nat),
        decreases n - i,
    {
        let c = s.get_char(i);
        assert(s@.skip(i as int)[0] == c);
        assert(s@.skip(i as int).drop_first() =~= s@.skip(i + 1));
        match char_width_of(c) {
            None => {
                return false;
            },
            Some(w) => {
                if w >= rem {
                    return true;
                }
                rem = rem - w;
            },
        }
        i = i + 1;
    }
    assert(s@.skip(n as int).len() == 0);
    true
}

impl Token {
    /// Cuts the token after `col` columns, as `split_prefix_off` does, where
    /// every character up to the cut has a width; otherwise leaves the token
    /// as it is and returns `None`.
    pub fn try_split_prefix_off(&mut self, col: usize) -> (r: Option<Token>)
        ensures
            r is Some <==> split_reaches(old(self).text@, col as nat),
            r matches Some(prefix) ==> {
                &&& prefix.text@ == split_at_cols(old(self).text@, col as nat).0
                &&& final(self).text@ == split_at_cols(old(self).text@, col as nat).1
                &&& prefix.style == old(self).style
                &&& final(self).style == old(self).style
            },
            r is None ==> *final(self) == *old(self),
    {
        if can_split(self.text.as_str(), col) {
            Some(self.split_prefix_off(col))
        } else {
            None
        }
    }

    /// A copy of the token.
    pub fn copy(&self) -> (t: Token)
        ensures
            t@ == self@,
    {
        Token { text: self.text.clone(), style: self.style }
    }
}

impl FrameLine {
    /// A copy of the line.
    pub fn copy(&self) -> (l: FrameLine)
        ensures
            l@ == self@,
    {
        let mut tokens: Vec<Token> = Vec::new();
        let mut i: usize = 0;
        while i < self.tokens.len()
            invariant
                i <= self.tokens@.len(),
                tokens@.len() == i,
                forall|j: int| 0 <= j < i ==> (#[trigger] tokens@[j])@ == self.tokens@[j]@,
            decreases self.tokens@.len() - i,
        {
            tokens.push(self.tokens[i].copy());
            i = i + 1;
        }
        let l = FrameLine { tokens };
        assert(l@ =~= self@);
        l
    }

    /// The width of the line in columns, where it fits in a `usize`.
    pub fn try_cols(&self) -> (r: Option<usize>)
        ensures
            r is Some <==> line_cols(self@) <= usize::MAX,
            r matches Some(n) ==> n == line_cols(self@),
    {
        let mut sum: usize = 0;
        let mut i: usize = 0;
        let n = self.tokens.len();
        while i < n
            invariant
                n == self.tokens.len(),
                i <= n,
                sum == line_cols(self@.take(i as int)),
            decreases n - i,
        {
            assert(self@.take(i + 1).drop_last() =~= self@.take(i as int));
            let w = self.tokens[i].cols();
            if w > usize::MAX - sum {
                proof {
                    lemma_line_cols_prefix_le(self@, i + 1);
                }
                return None;
            }
            sum = sum + w;
            i = i + 1;
        }
        assert(self@.take(n as int) =~= self@);
        Some(sum)
    }

    /// Whether `line_split(self@, col)` can be computed.
    fn can_split_at(&self, col: usize) -> (r: bool)
        ensures
            r == line_split_ok(self@, col as nat),
    {
        let n = self.tokens.len();
        let mut i: usize = 0;
        let mut acc: usize = 0;
        while i < n
            invariant
                n == self.tokens@.len(),
                i <= n,
                acc <= col,
                line_split_ok(self@, col as nat) == line_split_ok_from(self@, col as nat, i as int, acc as nat),
            decreases n - i,
        {
            if acc == col {
                return true;
            }
            let w = self.tokens[i].cols();
            assert(self.tokens@[i as int]@ == self@[i as int]);
            if w > usize::MAX - acc {
                return false;
            }
            let next = acc + w;
            if next > col {
                return can_split(self.tokens[i].text.as_str(), next - col);
            }
            acc = next;
            i = i + 1;
        }
        true
    }

    /// Whether drawing `token` at column `col` runs without overflow and cuts
    /// tokens only through characters of known width.
    pub fn can_draw_token(&self, col: usize, token: &Token) -> (r: bool)
        ensures
            r == line_draw_ok(self@, col as nat, token@),
    {
        let cols = match self.try_cols() {
            Some(c) => c,
            None => {
                return false;
            },
        };
        let mut padded = self.copy();
        if col > cols {
            padded.tokens.push(Token::plain(spaces_string(col - cols)));
        }
        assert(padded@ =~= padded_to(self@, col as nat));
        if !padded.can_split_at(col) {
            return false;
        }
        let rest = padded.split_off(col);
        rest.can_split_at(token.cols())
    }

    /// Draws `token` at column `col`, as `draw_token` does, where that runs
    /// without overflow and cuts tokens only through characters of known
    /// width; otherwise leaves the line as it is and returns `false`.
    pub fn try_draw_token(&mut self, col: usize, token: Token) -> (r: bool)
        ensures
            r == line_draw_ok(old(self)@, col as nat, token@),
            r ==> final(self)@ == line_drawn(old(self)@, col as nat, token@),
            !r ==> final(self)@ == old(self)@,
    {
        if self.can_draw_token(col, &token) {
            self.draw_token(col, token);
            true
        } else {
            false
        }
    }
}

impl Canvas2 {
    /// Draws `token` at `position`, as `draw_token` does, where that runs
    /// without a fault; otherwise leaves the canvas as it is and returns
    /// `false`.
    pub fn try_draw_token(&mut self, position: CanvasPosition, token: Token) -> (r: bool)
        ensures
            r == (old(self).frame_row_offset + old(self).frame.size.rows <= usize::MAX
                && token_draw_ok(*old(self), position, token@)),
            !r ==> final(self).frame.lines@ == old(self).frame.lines@,
            final(self).frame_row_offset == old(self).frame_row_offset,
            final(self).frame.size == old(self).frame.size,
            r ==> {
                &&& final(self).frame.lines@.len() == old(self).frame.lines@.len()
                &&& !shows_col(*old(self), position) ==> final(self).frame.lines@ == old(
                    self,
                ).frame.lines@
                &&& shows_col(*old(self), position) ==> {
                    let i = position.row - old(self).frame_row_offset;
                    &&& final(self).frame.lines@[i]@ == line_drawn(
                        old(self).frame.lines@[i]@,
                        position.col as nat,
                        token@,
                    )
                    &&& forall|j: int|
                        0 <= j < final(self).frame.lines@.len() && j != i
                            ==> (#[trigger] final(self).frame.lines@[j]) == old(self).frame.lines@[j]
                }
            },
    {
        if self.frame.size.rows > usize::MAX - self.frame_row_offset {
            return false;
        }
        let start = self.frame_row_offset;
        let end = self.frame_row_offset + self.frame.size.rows;
        if start <= position.col && position.col < end {
            if position.row < start {
                return false;
            }
            let i = position.row - start;
            if i >= self.frame.lines.len() {
                return false;
            }
            if !self.frame.lines[i].can_draw_token(position.col, &token) {
                return false;
            }
        }
        self.draw_token(position, token);
        true
    }
}

impl Text {
    /// A copy of the text.
    pub fn copy(&self) -> (t: Text)
        ensures
            t@ == self@,
            t.attrs == self.attrs,
    {
        Text { text: self.text.clone(), attrs: self.attrs }
    }

    /// Truncates the text, as `truncate` does, where every character up to
    /// the cut has a width; otherwise leaves the text as it is and returns
    /// `false`.
    pub fn try_truncate(&mut self, max_cols: usize) -> (r: bool)
        ensures
            r == truncate_reaches(old(self).text@, max_cols as nat),
            r ==> final(self).text@ == text_truncated(old(self).text@, max_cols as nat),
            !r ==> final(self).text@ == old(self).text@,
            final(self).attrs == old(self).attrs,
    {
        if can_truncate(self.text.as_str(), max_cols) {
            self.truncate(max_cols);
            true
        } else {
            false
        }
    }
}

impl Row {
    /// A copy of the row.
    pub fn copy(&self) -> (r: Row)
        ensures
            r@ == self@,
    {
        let mut texts: Vec<Text> = Vec::new();
        let mut i: usize = 0;
        while i < self.texts.len()
            invariant
                i <= self.texts@.len(),
                texts@.len() == i,
                forall|j: int| 0 <= j < i ==> (#[trigger] texts@[j])@ == self.texts@[j]@,
            decreases self.texts@.len() - i,
        {
            texts.push(self.texts[i].copy());
            i = i + 1;
        }
        let r = Row { texts };
        assert(r@ =~= self@);
        r
    }

    /// The width of the row in columns, where it fits in a `usize`.
    pub fn try_cols(&self) -> (r: Option<usize>)
        ensures
            r is Some <==> row_cols(self@) <= usize::MAX,
            r matches Some(n) ==> n == row_cols(self@),
    {
        let mut sum: usize = 0;
        let mut i: usize = 0;
        let n = self.texts.len();
        while i < n
            invariant
                n == self.texts.len(),
                i <= n,
                sum == row_cols(self@.take(i as int)),
            decreases n - i,
        {
            assert(self@.take(i + 1).drop_last() =~= self@.take(i as int));
            let w = self.texts[i].cols();
            if w > usize::MAX - sum {
                proof {
                    lemma_row_cols_prefix_le(self@, i + 1);
                }
                return None;
            }
            sum = sum + w;
            i = i + 1;
        }
        assert(self@.take(n as int) =~= self@);
        Some(sum)
    }

    /// Whether truncating the row to `max_cols` columns runs without overflow
    /// and truncates only through characters of known width.
    pub fn can_truncate(&self, max_cols: usize) -> (r: bool)
        ensures
            r == row_truncate_ok(self@, max_cols as nat),
    {
        let n = self.texts.len();
        let mut i: usize = 0;
        let mut acc: usize = 0;
        while i < n
            invariant
                n == self.texts@.len(),
                i <= n,
                acc <= max_cols,
                row_truncate_ok(self@, max_cols as nat) == row_truncate_ok_from(
                    self@,
                    max_cols as nat,
                    i as int,
                    acc as nat,
                ),
            decreases n - i,
        {
            let tc = self.texts[i].cols();
            assert(self.texts@[i as int]@ == self@[i as int]);
            if tc > usize::MAX - acc {
                return false;
            }
            if acc + tc < max_cols {
                acc = acc + tc;
            } else if !can_truncate(self.texts[i].text.as_str(), max_cols - acc) {
                return false;
            }
            i = i + 1;
        }
        true
    }

    /// Truncates the row, as `truncate` does, where that can be computed;
    /// otherwise leaves the row as it is and returns `false`.
    pub fn try_truncate(&mut self, max_cols: usize) -> (r: bool)
        ensures
            r == row_truncate_ok(old(self)@, max_cols as nat),
            r ==> final(self)@ == row_truncated(old(self)@, max_cols as nat),
            !r ==> final(self)@ == old(self)@,
    {
        if self.can_truncate(max_cols) {
            self.truncate(max_cols);
            true
        } else {
            false
        }
    }

    /// Whether replacing the row from column `col` on can be computed.
    pub fn can_replace(&self, col: usize) -> (r: bool)
        ensures
            r == row_replace_ok(self@, col as nat),
    {
        if !self.can_truncate(col) {
            return false;
        }
        let mut kept = self.copy();
        kept.truncate(col);
        kept.try_cols().is_some()
    }

    /// Replaces the row from column `col` on with the texts of `src`, as
    /// `replace` does, where that can be computed; otherwise leaves the row as
    /// it is and returns `false`.
    pub fn try_replace(&mut self, col: usize, src: Row) -> (r: bool)
        ensures
            r == row_replace_ok(old(self)@, col as nat),
            r ==> final(self)@ == row_replaced(old(self)@, col as nat, src@),
            !r ==> final(self)@ == old(self)@,
    {
        if self.can_replace(col) {
            self.replace(col, src);
            true
        } else {
            false
        }
    }
}

impl Canvas {
    /// Closes the current row, as `draw_newline` does, where its truncation
    /// can be computed; otherwise leaves the canvas as it is and returns
    /// `false`.
    pub fn try_draw_newline(&mut self) -> (r: bool)
        ensures
            r == row_truncate_ok(old(self).current_row_view(), old(self).max_cols_view() as nat),
            r ==> rows_view(final(self).rows_seq()) == rows_view(old(self).rows_seq()).push(
                row_truncated(old(self).current_row_view(), old(self).max_cols_view() as nat),
            ),
            r ==> final(self).current_row_view() == Seq::<TextView>::empty(),
            !r ==> final(self).rows_seq() == old(self).rows_seq(),
            !r ==> final(self).current_row_view() == old(self).current_row_view(),
            final(self).max_cols_view() == old(self).max_cols_view(),
    {
        if self.current_row.can_truncate(self.max_cols) {
            self.draw_newline();
            true
        } else {
            false
        }
    }

    /// Adds `text` to the current row and closes the row, as `draw_textl`
    /// does, where the row's truncation can be computed; otherwise leaves the
    /// canvas as it is and returns `false`.
    pub fn try_draw_textl(&mut self, text: Text) -> (r: bool)
        ensures
            r == row_truncate_ok(
                old(self).current_row_view().push(text@),
                old(self).max_cols_view() as nat,
            ),
            r ==> rows_view(final(self).rows_seq()) == rows_view(old(self).rows_seq()).push(
                row_truncated(
                    old(self).current_row_view().push(text@),
                    old(self).max_cols_view() as nat,
                ),
            ),
            r ==> final(self).current_row_view() == Seq::<TextView>::empty(),
            !r ==> final(self).rows_seq() == old(self).rows_seq(),
            !r ==> final(self).current_row_view() == old(self).current_row_view(),
            final(self).max_cols_view() == old(self).max_cols_view(),
    {
        let mut row = self.current_row.copy();
        row.texts.push(text.copy());
        assert(row@ =~= self.current_row@.push(text@));
        if row.can_truncate(self.max_cols) {
            self.draw_textl(text);
            true
        } else {
            false
        }
    }

    /// Whether drawing the rows of `src` from `position` on can be computed,
    /// found by drawing them on a copy of the rows.
    pub fn can_draw_canvas(&self, position: Position, src: &Canvas) -> (r: bool)
        ensures
            r == canvas_draw_ok(
                rows_view(self.rows_seq()),
                position.row as nat,
                position.col as nat,
                rows_view(src.rows_seq()),
            ),
    {
        let ghost rows0 = rows_view(self.rows@);
        let ghost src0 = rows_view(src.rows@);
        let mut sim: Vec<Row> = Vec::new();
        let mut j: usize = 0;
        while j < self.rows.len()
            invariant
                j <= self.rows@.len(),
                sim@.len() == j,
                forall|k: int| 0 <= k < j ==> (#[trigger] sim@[k])@ == self.rows@[k]@,
            decreases self.rows@.len() - j,
        {
            sim.push(self.rows[j].copy());
            j = j + 1;
        }
        assert(rows_view(sim@) =~= rows0);
        assert(src0.take(0) =~= Seq::<Seq<TextView>>::empty());
        let n = src.rows.len();
        let mut k: usize = 0;
        while k < n
            invariant
                n == src.rows@.len(),
                src0 == rows_view(src.rows@),
                rows0 == rows_view(self.rows@),
                k <= n,
                canvas_draw_ok(rows0, position.row as nat, position.col as nat, src0.take(k as int)),
                rows_view(sim@) == canvas_drawn(
                    rows0,
                    position.row as nat,
                    position.col as nat,
                    src0.take(k as int),
                ),
            decreases n - k,
        {
            proof {
                assert(src0.take(k + 1).drop_last() =~= src0.take(k as int));
                assert(src0.take(k + 1).last() == src0[k as int]);
            }
            if position.row > usize::MAX - k {
                proof {
                    lemma_canvas_draw_not_ok(rows0, position.row as nat, position.col as nat, src0, k + 1);
                }
                return false;
            }
            let row_i = k + position.row;
            let ghost before = rows_view(sim@);
            while sim.len() <= row_i
                invariant
                    before.len() <= sim@.len(),
                    sim@.len() <= row_i + 1 || sim@.len() == before.len(),
                    rows_view(sim@) == extended_rows(before, sim@.len() as nat),
                decreases row_i + 1 - sim@.len(),
            {
                let ghost prev = rows_view(sim@);
                sim.push(Row::empty());
                assert(rows_view(sim@) =~= prev.push(Seq::<TextView>::empty()));
                assert(extended_rows(before, sim@.len() as nat) =~= extended_rows(
                    before,
                    (sim@.len() - 1) as nat,
                ).push(Seq::<TextView>::empty()));
            }
            assert(rows_view(sim@) =~= extended_rows(before, (row_i + 1) as nat));
            assert(sim@[row_i as int]@ == extended_rows(before, (row_i + 1) as nat)[row_i as int]);
            if !sim[row_i].can_replace(position.col) {
                proof {
                    assert(!canvas_draw_ok(
                        rows0,
                        position.row as nat,
                        position.col as nat,
                        src0.take(k + 1),
                    ));
                    lemma_canvas_draw_not_ok(rows0, position.row as nat, position.col as nat, src0, k + 1);
                }
                return false;
            }
            let mut dst = Row::empty();
            std::mem::swap(&mut dst, &mut sim[row_i]);
            dst.replace(position.col, src.rows[k].copy());
            sim.set(row_i, dst);
            k = k + 1;
            assert(rows_view(sim@) =~= canvas_drawn(
                rows0,
                position.row as nat,
                position.col as nat,
                src0.take(k as int),
            ));
        }
        assert(src0.take(n as int) =~= src0);
        true
    }

    /// Draws the rows of `canvas` from `position` on, as `draw_canvas` does,
    /// where that can be computed; otherwise leaves this canvas as it is and
    /// returns `false`.
    pub fn try_draw_canvas(&mut self, position: Position, canvas: Canvas) -> (r: bool)
        ensures
            r == canvas_draw_ok(
                rows_view(old(self).rows_seq()),
                position.row as nat,
                position.col as nat,
                rows_view(canvas.rows_seq()),
            ),
            r ==> rows_view(final(self).rows_seq()) == canvas_drawn(
                rows_view(old(self).rows_seq()),
                position.row as nat,
                position.col as nat,
                rows_view(canvas.rows_seq()),
            ),
            !r ==> final(self).rows_seq() == old(self).rows_seq(),
            final(self).current_row_view() == old(self).current_row_view(),
            final(self).max_cols_view() == old(self).max_cols_view(),
    {
        if self.can_draw_canvas(position, &canvas) {
            self.draw_canvas(position, canvas);
            true
        } else {
            false
        }
    }
}

/// A draw that cannot be computed up to some of its rows cannot be computed.
proof fn lemma_canvas_draw_not_ok(
    rows: Seq<Seq<TextView>>,
    row: nat,
    col: nat,
    src: Seq<Seq<TextView>>,
    k: int,
)
    requires
        0 <= k <= src.len(),
        !canvas_draw_ok(rows, row, col, src.take(k)),
    ensures
        !canvas_draw_ok(rows, row, col, src),
{
    if canvas_draw_ok(rows, row, col, src) {
        lemma_canvas_draw_ok_prefix(rows, row, col, src, k);
    }
}

} // verus!
