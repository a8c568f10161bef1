use vstd::prelude::*;

verus! {

/// Errors of pixel access.
#[derive(Debug, Clone, Copy, PartialEq, Eq, Structural)]
pub enum CanvasError {
    /// The pixel lies outside the canvas.
    OutOfCanvasBorder,
}

/// A grid of `width` by `height` pixels of any type, stored row by row.
pub struct Canvas<P> {
    width: usize,
    height: usize,
    pixels: Vec<P>,
}

impl<P> Canvas<P> {
    /// The number of columns.
    pub closed spec fn width_spec(&self) -> nat {
        self.width as nat
    }

    /// The number of rows.
    pub closed spec fn height_spec(&self) -> nat {
        self.height as nat
    }

    /// All pixels, row by row.
    pub closed spec fn pixels(&self) -> Seq<P> {
        self.pixels@
    }

    /// The pixels fill the grid exactly.
    pub open spec fn wf(&self) -> bool {
        self.pixels().len() == self.width_spec() * self.height_spec()
    }

    /// True when column `x` and row `y` lie on the canvas.
    pub open spec fn on_canvas(&self, x: int, y: int) -> bool {
        0 <= x < self.width_spec() && 0 <= y < self.height_spec()
    }

    /// The pixel in column `x` of row `y`.
    pub open spec fn pixel(&self, x: int, y: int) -> P {
        self.pixels()[y * self.width_spec() + x]
    }
}

/// Pixel `(x, y)` of a grid `width` wide lives at `y * width + x`.
proof fn lemma_pixel_index(width: int, height: int, x: int, y: int)
    requires
        0 <= x < width,
        0 <= y < height,
    ensures
        0 <= y * width + x < width * height,
{
    assert(y * width <= (height - 1) * width) by (nonlinear_arith)
        requires
            0 <= y < height,
            0 < width,
    ;
    assert((height - 1) * width == width * height - width) by (nonlinear_arith);
    assert(0 <= y * width) by (nonlinear_arith)
        requires
            0 <= y,
            0 < width,
    ;
}

impl<P: Copy> Canvas<P> {
    /// A canvas of `w` columns and `h` rows, every pixel set to `c`.
    pub fn new_with_color(w: usize, h: usize, c: P) -> (r: Self)
        requires
            w * h <= usize::MAX,
        ensures
            r.wf(),
            r.width_spec() == w,
            r.height_spec() == h,
            forall|x: int, y: int| r.on_canvas(x, y) ==> #[trigger] r.pixel(x, y) == c,
    {
        let n: usize = w * h;
        let mut pixels: Vec<P> = Vec::new();
        while pixels.len() < n
            invariant
                pixels@.len() <= n,
                forall|i: int| 0 <= i < pixels@.len() ==> pixels@[i] == c,
            decreases n - pixels@.len(),
        {
            pixels.push(c);
        }
        let r = Canvas { width: w, height: h, pixels };
        assert forall|x: int, y: int| r.on_canvas(x, y) implies #[trigger] r.pixel(x, y) == c by {
            lemma_pixel_index(w as int, h as int, x, y);
        }
        r
    }

    /// The number of columns.
    pub fn get_width(&self) -> (r: usize)
        ensures
            r == self.width_spec(),
    {
        self.width
    }

    /// The number of rows.
    pub fn get_height(&self) -> (r: usize)
        ensures
            r == self.height_spec(),
    {
        self.height
    }

    /// The pixel in column `x` of row `y`, or `OutOfCanvasBorder`.
    pub fn pixel_at(&self, x: usize, y: usize) -> (r: Result<P, CanvasError>)
        requires
            self.wf(),
        ensures
            r is Ok <==> self.on_canvas(x as int, y as int),
            r matches Ok(p) ==> p == self.pixel(x as int, y as int),
            r is Err ==> r->Err_0 == CanvasError::OutOfCanvasBorder,
    {
        if x >= self.width || y >= self.height {
            Err(CanvasError::OutOfCanvasBorder)
        } else {
            let len = self.pixels.len();
            proof {
                lemma_pixel_index(self.width as int, self.height as int, x as int, y as int);
            }
            Ok(self.pixels[y * self.width + x])
        }
    }

    /// Sets the pixel in column `x` of row `y` to `c`; `OutOfCanvasBorder`,
    /// with the canvas unchanged, when that pixel does not exist.
    pub fn write_pixel(&mut self, x: usize, y: usize, c: P) -> (r: Result<(), CanvasError>)
        requires
            old(self).wf(),
        ensures
            final(self).wf(),
            final(self).width_spec() == old(self).width_spec(),
            final(self).height_spec() == old(self).height_spec(),
            r is Ok <==> old(self).on_canvas(x as int, y as int),
            r is Ok ==> final(self).pixels() == old(self).pixels().update(
                y * old(self).width_spec() + x,
                c,
            ),
            r is Err ==> r->Err_0 == CanvasError::OutOfCanvasBorder && final(self).pixels() == old(
                self,
            ).pixels(),
    {
        if x >= self.width || y >= self.height {
            Err(CanvasError::OutOfCanvasBorder)
        } else {
            let len = self.pixels.len();
            proof {
                lemma_pixel_index(self.width as int, self.height as int, x as int, y as int);
            }
            let i = y * self.width + x;
            self.pixels.set(i, c);
            Ok(())
        }
    }
}

impl<P: Copy + Default> Canvas<P> {
    /// A canvas of `w` columns and `h` rows, every pixel set to the default
    /// pixel value.
    pub fn new(w: usize, h: usize) -> (r: Self)
        requires
            w * h <= usize::MAX,
        ensures
            r.wf(),
            r.width_spec() == w,
            r.height_spec() == h,
            forall|x: int, y: int| r.on_canvas(x, y) ==> #[trigger] r.pixel(x, y) == r.pixel(0, 0),
    {
        let c = P::default();
        Self::new_with_color(w, h, c)
    }
}

/// An image in the plain-text PPM format: a header and a body of pixel values.
pub struct PPM {
    pub header: String,
    pub body: String,
}

impl PPM {
    /// The whole file: the header, a line break, then the body.
    pub fn get(&self) -> (r: String)
        ensures
            r@ == self.header@ + seq!['\n'] + self.body@,
    {
        let mut text = self.header.clone();
        let nl = "\n";
        proof {
            reveal_strlit("\n");
        }
        text.append(nl);
        text.append(self.body.as_str());
        text
    }
}

/// The longest line a PPM file may hold.
pub const MAX_LINE_LENGTH: usize = 70;

/// The largest value a PPM sample takes.
pub const MAX_COLOR_VALUE: u32 = 255;

/// The character of the decimal digit `d`.
pub open spec fn digit_char(d: int) -> char {
    seq!['0', '1', '2', '3', '4', '5', '6', '7', '8', '9'][d]
}

/// `n` written in decimal, without leading zeros.
pub open spec fn decimal(n: nat) -> Seq<char>
    decreases n,
{
    if n < 10 {
        seq![digit_char(n as int)]
    } else {
        decimal(n / 10).push(digit_char((n % 10) as int))
    }
}

/// Lays words out on lines of at most `MAX_LINE_LENGTH` characters, filling
/// each line before starting the next: words on a line are separated by a
/// space, and a word that would make its line too long starts a new one.
/// Gives the text and the length of its last line.
pub open spec fn layout(words: Seq<Seq<char>>) -> (Seq<char>, nat)
    decreases words.len(),
{
    if words.len() == 0 {
        (Seq::empty(), 0)
    } else {
        let (text, cur) = layout(words.drop_last());
        let w = words.last();
        if words.len() == 1 {
            (w, w.len())
        } else if cur + 1 + w.len() <= MAX_LINE_LENGTH {
            (text + seq![' '] + w, cur + 1 + w.len())
        } else {
            (text + seq!['\n'] + w, w.len())
        }
    }
}

/// The samples of row `y`, in decimal, where each row has `row_len` samples.
pub open spec fn row_words(samples: Seq<u32>, row_len: nat, y: nat) -> Seq<Seq<char>> {
    Seq::new(row_len, |k: int| decimal(samples[y * row_len + k] as nat))
}

/// The body of a PPM file for the first `rows` rows of `samples`: each row
/// laid out on its own lines and ended by a line break.
pub open spec fn ppm_body_text(samples: Seq<u32>, row_len: nat, rows: nat) -> Seq<char>
    decreases rows,
{
    if rows == 0 {
        Seq::empty()
    } else {
        ppm_body_text(samples, row_len, (rows - 1) as nat) + layout(
            row_words(samples, row_len, (rows - 1) as nat),
        ).0 + seq!['\n']
    }
}

/// The header of a PPM file: the format tag, the size and the largest sample value.
pub open spec fn ppm_header_text(width: nat, height: nat) -> Seq<char> {
    seq!['P', '3', '\n'] + decimal(width) + seq![' '] + decimal(height) + seq!['\n'] + decimal(
        MAX_COLOR_VALUE as nat,
    )
}

/// True when `s` holds no line break.
pub open spec fn no_break(s: Seq<char>) -> bool {
    forall|k: int| 0 <= k < s.len() ==> s[k] != '\n'
}

/// True when no line of `text` is longer than `max` characters.
pub open spec fn lines_at_most(text: Seq<char>, max: nat) -> bool {
    forall|i: int, j: int|
        0 <= i <= j <= text.len() && no_break(#[trigger] text.subrange(i, j)) ==> j - i <= max
}

/// `10` to the power `k`.
pub open spec fn pow10(k: nat) -> nat
    decreases k,
{
    if k == 0 {
        1
    } else {
        10 * pow10((k - 1) as nat)
    }
}

proof fn lemma_decimal_shape(n: nat, k: nat)
    requires
        n < pow10(k),
    ensures
        no_break(decimal(n)),
        decimal(n).len() <= k || n < 10,
        decimal(n).len() >= 1,
    decreases n,
{
    if n >= 10 {
        assert(k >= 1) by {
            if k == 0 {
                assert(pow10(0) == 1);
            }
        }
        assert(n / 10 < pow10((k - 1) as nat));
        lemma_decimal_shape(n / 10, (k - 1) as nat);
        let d = decimal(n / 10);
        assert(decimal(n) == d.push(digit_char((n % 10) as int)));
        assert(d.len() <= k - 1 || n / 10 < 10);
        if n / 10 < 10 {
            assert(d.len() == 1);
            assert(k >= 2) by {
                if k == 1 {
                    assert(pow10(1) == 10) by {
                        assert(pow10(0) == 1);
                    }
                }
            }
        }
    }
}

/// A sample written in decimal takes at most ten characters and no line break.
proof fn lemma_sample_word(n: u32)
    ensures
        no_break(decimal(n as nat)),
        1 <= decimal(n as nat).len() <= 10,
{
    reveal_with_fuel(pow10, 11);
    assert(pow10(10) == 10_000_000_000);
    lemma_decimal_shape(n as nat, 10);
}

/// The last `cur` characters of a laid-out text form its last line.
pub open spec fn ends_with_line(text: Seq<char>, cur: nat) -> bool {
    &&& cur <= text.len()
    &&& no_break(text.subrange(text.len() - cur, text.len() as int))
    &&& cur < text.len() ==> text[text.len() - cur - 1] == '\n'
}

proof fn lemma_layout_lines(words: Seq<Seq<char>>)
    requires
        forall|k: int| 0 <= k < words.len() ==> no_break(#[trigger] words[k]),
        forall|k: int| 0 <= k < words.len() ==> (#[trigger] words[k]).len() <= MAX_LINE_LENGTH,
    ensures
        lines_at_most(layout(words).0, MAX_LINE_LENGTH as nat),
        ends_with_line(layout(words).0, layout(words).1),
        layout(words).1 <= MAX_LINE_LENGTH,
    decreases words.len(),
{
    let max = MAX_LINE_LENGTH as nat;
    if words.len() == 0 {
        assert(layout(words).0.subrange(0, 0) =~= Seq::<char>::empty());
    } else {
        let prev = words.drop_last();
        lemma_layout_lines(prev);
        let (text, cur) = layout(prev);
        let w = words.last();
        assert(no_break(w) && w.len() <= max) by {
            assert(w == words[words.len() - 1]);
        }
        if words.len() == 1 {
            let t = layout(words).0;
            assert(t == w);
            assert(t.subrange(0, t.len() as int) =~= w);
            assert forall|i: int, j: int|
                0 <= i <= j <= t.len() && no_break(#[trigger] t.subrange(i, j)) implies j - i
                <= max by {}
        } else {
            let sep = if cur + 1 + w.len() <= max {
                ' '
            } else {
                '\n'
            };
            let t = text + seq![sep] + w;
            assert(layout(words).0 == t);
            let n = text.len() as int;
            assert forall|i: int, j: int|
                0 <= i <= j <= t.len() && no_break(#[trigger] t.subrange(i, j)) implies j - i
                <= max by {
                if j <= n {
                    assert(t.subrange(i, j) =~= text.subrange(i, j));
                } else if i > n {
                    assert forall|k: int| 0 <= k < (j - i) implies t.subrange(i, j)[k] == w[k + i
                        - n - 1] by {}
                } else {
                    assert(t.subrange(i, j)[n - i] == sep);
                    assert(sep == ' ');
                    if i < n - cur {
                        assert(text[n - cur - 1] == '\n');
                        assert(t.subrange(i, j)[n - cur - 1 - i] == '\n');
                    }
                }
            }
            let c2 = layout(words).1;
            assert forall|k: int| 0 <= k < c2 implies #[trigger] t.subrange(
                t.len() - c2,
                t.len() as int,
            )[k] != '\n' by {
                let at = t.len() - c2 + k;
                if at > n {
                    assert(t[at] == w[at - n - 1]);
                } else if at < n {
                    assert(text.subrange(n - cur, n)[at - (n - cur)] == text[at]);
                }
            }
            if c2 < t.len() {
                if sep == '\n' {
                    assert(t[t.len() - c2 - 1] == '\n');
                } else {
                    assert(t[t.len() - c2 - 1] == text[n - cur - 1]);
                }
            }
        }
    }
}

/// No line of a PPM body is longer than `MAX_LINE_LENGTH` characters.
pub proof fn lemma_ppm_body_lines(samples: Seq<u32>, row_len: nat, rows: nat)
    requires
        rows * row_len <= samples.len(),
    ensures
        lines_at_most(ppm_body_text(samples, row_len, rows), MAX_LINE_LENGTH as nat),
        rows > 0 ==> ppm_body_text(samples, row_len, rows).last() == '\n',
    decreases rows,
{
    let max = MAX_LINE_LENGTH as nat;
    if rows == 0 {
        let t = ppm_body_text(samples, row_len, rows);
        assert forall|i: int, j: int|
            0 <= i <= j <= t.len() && no_break(#[trigger] t.subrange(i, j)) implies j - i
            <= max by {}
    } else {
        let y = (rows - 1) as nat;
        assert(y * row_len <= rows * row_len) by (nonlinear_arith)
            requires
                y < rows,
        ;
        lemma_ppm_body_lines(samples, row_len, y);
        let prefix = ppm_body_text(samples, row_len, y);
        let words = row_words(samples, row_len, y);
        assert forall|k: int| 0 <= k < words.len() implies no_break(#[trigger] words[k])
            && words[k].len() <= MAX_LINE_LENGTH by {
            lemma_sample_word(samples[y * row_len + k]);
        }
        lemma_layout_lines(words);
        let x = layout(words).0;
        let t = prefix + x + seq!['\n'];
        assert(ppm_body_text(samples, row_len, rows) == t);
        let n = prefix.len() as int;
        assert forall|i: int, j: int|
            0 <= i <= j <= t.len() && no_break(#[trigger] t.subrange(i, j)) implies j - i
            <= max by {
            if j <= n {
                assert(t.subrange(i, j) =~= prefix.subrange(i, j));
            } else if i < n {
                assert(prefix[n - 1] == '\n');
                assert(t.subrange(i, j)[n - 1 - i] == '\n');
            } else if i == j {
            } else if j == t.len() {
                assert(t.subrange(i, j)[j - 1 - i] == '\n');
            } else {
                assert(t.subrange(i, j) =~= x.subrange(i - n, j - n));
            }
        }
    }
}

fn digit_str(d: u64) -> (r: &'static str)
    requires
        d < 10,
    ensures
        r@ == seq![digit_char(d as int)],
{
    proof {
        reveal_strlit("0");
        reveal_strlit("1");
        reveal_strlit("2");
        reveal_strlit("3");
        reveal_strlit("4");
        reveal_strlit("5");
        reveal_strlit("6");
        reveal_strlit("7");
        reveal_strlit("8");
        reveal_strlit("9");
    }
    match d {
        0 => "0",
        1 => "1",
        2 => "2",
        3 => "3",
        4 => "4",
        5 => "5",
        6 => "6",
        7 => "7",
        8 => "8",
        _ => "9",
    }
}

/// Appends `n` in decimal to `s`.
fn append_decimal(s: &mut String, n: u64)
    ensures
        final(s)@ == old(s)@ + decimal(n as nat),
    decreases n,
{
    if n >= 10 {
        append_decimal(s, n / 10);
    }
    s.append(digit_str(n % 10));
    proof {
        if n >= 10 {
            assert(decimal(n as nat) == decimal((n / 10) as nat).push(digit_char((n % 10) as int)));
        }
    }
}

/// The number of decimal digits of `n`.
fn decimal_len(n: u32) -> (r: usize)
    ensures
        r == decimal(n as nat).len(),
    decreases n,
{
    if n < 10 {
        1
    } else {
        let k = decimal_len(n / 10);
        proof {
            assert(decimal(n as nat).len() == decimal((n / 10) as nat).len() + 1);
            lemma_decimal_len_bound((n / 10) as nat);
        }
        k + 1
    }
}

proof fn lemma_decimal_len_bound(n: nat)
    ensures
        decimal(n).len() <= n + 1,
    decreases n,
{
    if n >= 10 {
        lemma_decimal_len_bound(n / 10);
    }
}

/// The header of a PPM file for a canvas of `width` by `height` pixels.
pub fn ppm_header(width: usize, height: usize) -> (r: String)
    ensures
        r@ == ppm_header_text(width as nat, height as nat),
{
    let mut text = String::new();
    let tag = "P3\n";
    let space = " ";
    let nl = "\n";
    proof {
        reveal_strlit("P3\n");
        reveal_strlit(" ");
        reveal_strlit("\n");
    }
    text.append(tag);
    append_decimal(&mut text, width as u64);
    text.append(space);
    append_decimal(&mut text, height as u64);
    text.append(nl);
    append_decimal(&mut text, MAX_COLOR_VALUE as u64);
    assert(text@ =~= ppm_header_text(width as nat, height as nat));
    text
}

/// The body of a PPM file whose samples (three per pixel, row by row) are
/// `samples`: each row of `3 * width` samples is written in decimal on lines
/// of at most `MAX_LINE_LENGTH` characters, and ends with a line break.
pub fn ppm_body(width: usize, height: usize, samples: &Vec<u32>) -> (r: String)
    requires
        samples@.len() == 3 * width * height,
    ensures
        r@ == ppm_body_text(samples@, 3 * width as nat, height as nat),
        lines_at_most(r@, MAX_LINE_LENGTH as nat),
{
    proof {
        assert(height * (3 * width) == 3 * width * height) by (nonlinear_arith);
        lemma_ppm_body_lines(samples@, 3 * width as nat, height as nat);
    }
    let mut text = String::new();
    if height == 0 {
        return text;
    }
    let total = samples.len();
    proof {
        assert(3 * width <= 3 * width * height) by (nonlinear_arith)
            requires
                height > 0,
        ;
    }
    let row_len: usize = 3 * width;
    let space = " ";
    let nl = "\n";
    proof {
        reveal_strlit(" ");
        reveal_strlit("\n");
        assert(3 * width * height == row_len * height);
    }
    let mut y: usize = 0;
    while y < height
        invariant
            y <= height,
            row_len == 3 * width,
            total == samples@.len(),
            total == row_len * height,
            space@ == seq![' '],
            nl@ == seq!['\n'],
            text@ == ppm_body_text(samples@, row_len as nat, y as nat),
        decreases height - y,
    {
        let ghost words = row_words(samples@, row_len as nat, y as nat);
        let mut cur: usize = 0;
        let mut k: usize = 0;
        while k < row_len
            invariant
                y < height,
                k <= row_len,
                row_len == 3 * width,
                total == samples@.len(),
                total == row_len * height,
                space@ == seq![' '],
                nl@ == seq!['\n'],
                words == row_words(samples@, row_len as nat, y as nat),
                text@ == ppm_body_text(samples@, row_len as nat, y as nat) + layout(
                    words.take(k as int),
                ).0,
                cur == layout(words.take(k as int)).1,
            decreases row_len - k,
        {
            proof {
                lemma_pixel_index(row_len as int, height as int, k as int, y as int);
            }
            let sample = samples[y * row_len + k];
            let len = decimal_len(sample);
            let v = sample as u64;
            let ghost before = text@;
            if k == 0 {
                append_decimal(&mut text, v);
                cur = len;
            } else if len <= MAX_LINE_LENGTH - 1 && cur <= MAX_LINE_LENGTH - 1 - len {
                text.append(space);
                append_decimal(&mut text, v);
                cur = cur + 1 + len;
            } else {
                text.append(nl);
                append_decimal(&mut text, v);
                cur = len;
            }
            proof {
                let next = words.take(k as int + 1);
                assert(next.drop_last() =~= words.take(k as int));
                assert(next.last() == decimal(v as nat));
                if k == 0 {
                    assert(words.take(0) =~= Seq::<Seq<char>>::empty());
                }
                assert(text@ =~= ppm_body_text(samples@, row_len as nat, y as nat) + layout(
                    next,
                ).0);
            }
            k = k + 1;
        }
        text.append(nl);
        proof {
            assert(words.take(row_len as int) =~= words);
            assert(text@ =~= ppm_body_text(samples@, row_len as nat, (y + 1) as nat));
        }
        y = y + 1;
    }
    text
}

/// The PPM image of a canvas of `width` by `height` pixels whose samples,
/// three per pixel and row by row, are `samples`.
pub fn ppm_from_samples(width: usize, height: usize, samples: &Vec<u32>) -> (r: PPM)
    requires
        samples@.len() == 3 * width * height,
    ensures
        r.header@ == ppm_header_text(width as nat, height as nat),
        r.body@ == ppm_body_text(samples@, 3 * width as nat, height as nat),
{
    PPM { header: ppm_header(width, height), body: ppm_body(width, height, samples) }
}

} // verus!
