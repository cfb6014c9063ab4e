//! Locating an error span in the source: the lines that hold it, their
//! number, and where under each line the marks go.
use vstd::prelude::*;
use crate::lexer::Span;
use crate::text::{
    byte_pos,
    char_width,
    chars_of,
    string_push,
    utf8_width,
    decimal_text,
    push_decimal,
    lemma_byte_pos_step,
    lemma_byte_pos_mono,
    lemma_byte_pos_strict,
};

verus! {

// ---------------------------------------------------------------------------
// Meaning
// ---------------------------------------------------------------------------

/// Whether byte offset `b` falls between two characters of `f`.
pub open spec fn is_boundary(f: Seq<char>, b: int) -> bool {
    exists|i: int| 0 <= i <= f.len() && #[trigger] byte_pos(f, i) == b
}

/// The character position whose byte offset is `b`.
pub open spec fn char_index(f: Seq<char>, b: int) -> int {
    choose|i: int| 0 <= i <= f.len() && #[trigger] byte_pos(f, i) == b
}

/// The start of the line that holds position `i`: just after the last
/// newline before `i`, or 0.
pub open spec fn line_start(f: Seq<char>, i: int) -> int
    decreases i,
{
    if i <= 0 {
        0
    } else if f[i - 1] == '\n' {
        i
    } else {
        line_start(f, i - 1)
    }
}

/// The end of the line that holds position `j`, newline included: just after
/// the first newline at or after `j`, or the end of `f`.
pub open spec fn line_end(f: Seq<char>, j: int) -> int
    decreases f.len() - j,
{
    if j >= f.len() {
        f.len() as int
    } else if f[j] == '\n' {
        j + 1
    } else {
        line_end(f, j + 1)
    }
}

pub open spec fn count_newlines(s: Seq<char>) -> nat
    decreases s.len(),
{
    if s.len() == 0 {
        0
    } else {
        count_newlines(s.drop_last()) + if s.last() == '\n' {
            1nat
        } else {
            0nat
        }
    }
}

/// Splitting `s` after each newline: the completed lines (newline removed)
/// and the text after the last newline.
pub open spec fn split_acc(s: Seq<char>) -> (Seq<Seq<char>>, Seq<char>)
    decreases s.len(),
{
    if s.len() == 0 {
        (Seq::empty(), Seq::empty())
    } else {
        let r = split_acc(s.drop_last());
        if s.last() == '\n' {
            (r.0.push(r.1), Seq::empty())
        } else {
            (r.0, r.1.push(s.last()))
        }
    }
}

/// The lines of `s`, each without its newline; a last line without a
/// newline counts when it is not empty.
pub open spec fn split_lines(s: Seq<char>) -> Seq<Seq<char>> {
    let r = split_acc(s);
    if r.1.len() > 0 {
        r.0.push(r.1)
    } else {
        r.0
    }
}

/// Whether the section around `pos` can be cut out of `f`: both ends on
/// character boundaries, and the first line not starting after the last
/// one ends.
pub open spec fn section_defined(f: Seq<char>, pos: Span) -> bool {
    &&& is_boundary(f, pos.start as int)
    &&& is_boundary(f, pos.end as int)
    &&& line_start(f, char_index(f, pos.start as int)) <= line_end(f, char_index(f, pos.end as int))
}

pub open spec fn section_first(f: Seq<char>, pos: Span) -> int {
    line_start(f, char_index(f, pos.start as int))
}

pub open spec fn section_last(f: Seq<char>, pos: Span) -> int {
    line_end(f, char_index(f, pos.end as int))
}

/// For the first `k` characters of `line`, with a mark over bytes
/// `left..right`: how many characters end at or before `left`, and how
/// many overlap the mark.
pub open spec fn mark_counts(line: Seq<char>, k: int, left: int, right: int) -> (nat, nat)
    decreases k,
{
    if k <= 0 {
        (0, 0)
    } else {
        let r = mark_counts(line, k - 1, left, right);
        let s = byte_pos(line, k - 1) as int;
        let e = byte_pos(line, k) as int;
        (
            r.0 + if e <= left {
                1nat
            } else {
                0nat
            },
            r.1 + if right > s && left < e {
                1nat
            } else {
                0nat
            },
        )
    }
}

/// Number of decimal digits of `n`.
pub open spec fn decimal_width(n: nat) -> nat
    decreases n,
{
    if n < 10 {
        1
    } else {
        1 + decimal_width(n / 10)
    }
}

pub open spec fn strings_view(v: Seq<String>) -> Seq<Seq<char>> {
    v.map_values(|s: String| s@)
}

// ---------------------------------------------------------------------------
// LineInfo
// ---------------------------------------------------------------------------

/// The lines around an error, with the byte offset where they start, the
/// marked byte range, and the number of the first line.
pub struct LineInfo {
    lines: Vec<String>,
    start: usize,
    mark_left: usize,
    mark_right: usize,
    line_no: usize,
}

/// How to draw the marks under one line: the characters to skip, and how
/// many carets to draw (none when zero).
pub struct LineMark {
    pub before: usize,
    pub marks: usize,
}

impl LineInfo {
    pub closed spec fn lines_view(&self) -> Seq<Seq<char>> {
        strings_view(self.lines@)
    }

    pub closed spec fn start(&self) -> nat {
        self.start as nat
    }

    pub closed spec fn mark_left(&self) -> nat {
        self.mark_left as nat
    }

    pub closed spec fn mark_right(&self) -> nat {
        self.mark_right as nat
    }

    pub closed spec fn line_no(&self) -> nat {
        self.line_no as nat
    }

    pub fn new(
        lines: Vec<String>,
        start: usize,
        mark_left: usize,
        mark_right: usize,
        line_no: usize,
    ) -> (r: LineInfo)
        ensures
            r.lines_view() == strings_view(lines@),
            r.start() == start,
            r.mark_left() == mark_left,
            r.mark_right() == mark_right,
            r.line_no() == line_no,
    {
        LineInfo { lines, start, mark_left, mark_right, line_no }
    }

    /// The lines, in order.
    pub fn lines(&self) -> (r: &Vec<String>)
        ensures
            strings_view(r@) == self.lines_view(),
    {
        &self.lines
    }

    /// The number of the first line.
    pub fn first_line_no(&self) -> (r: usize)
        ensures
            r == self.line_no(),
    {
        self.line_no
    }

    /// The number of the last line.
    pub fn last_line_no(&self) -> (r: usize)
        requires
            self.line_no() + if self.lines_view().len() > 0 {
                self.lines_view().len() - 1
            } else {
                0
            } <= usize::MAX,
        ensures
            r == self.line_no() + if self.lines_view().len() > 0 {
                self.lines_view().len() - 1
            } else {
                0
            },
    {
        self.line_no + self.lines.len().saturating_sub(1)
    }

    /// Where to draw the marks under each line. Byte offsets count from the
    /// start of each line, against the mark taken relative to the section
    /// start.
    pub fn marks(&self) -> (r: Vec<LineMark>)
        ensures
            r@.len() == self.lines_view().len(),
            forall|i: int|
                0 <= i < r@.len() ==> {
                    let line = #[trigger] self.lines_view()[i];
                    let c = mark_counts(
                        line,
                        line.len() as int,
                        if self.mark_left() >= self.start() {
                            self.mark_left() - self.start()
                        } else {
                            0
                        },
                        if self.mark_right() >= self.start() {
                            self.mark_right() - self.start()
                        } else {
                            0
                        },
                    );
                    r@[i].before == c.0 && r@[i].marks == c.1
                },
    {
        let rel_left = self.mark_left.saturating_sub(self.start);
        let rel_right = self.mark_right.saturating_sub(self.start);
        let mut out: Vec<LineMark> = Vec::new();
        let mut i: usize = 0;
        while i < self.lines.len()
            invariant
                i <= self.lines@.len(),
                out@.len() == i,
                rel_left == (if self.mark_left() >= self.start() {
                    self.mark_left() - self.start()
                } else {
                    0
                }),
                rel_right == (if self.mark_right() >= self.start() {
                    self.mark_right() - self.start()
                } else {
                    0
                }),
                forall|k: int|
                    0 <= k < i ==> {
                        let line = #[trigger] self.lines_view()[k];
                        let c = mark_counts(line, line.len() as int, rel_left as int, rel_right as int);
                        out@[k].before == c.0 && out@[k].marks == c.1
                    },
            decreases self.lines@.len() - i,
        {
            let m = line_marks(&self.lines[i], rel_left, rel_right);
            out.push(m);
            i = i + 1;
        }
        out
    }
}

fn line_marks(line: &String, left: usize, right: usize) -> (m: LineMark)
    ensures
        ({
            let c = mark_counts(line@, line@.len() as int, left as int, right as int);
            m.before == c.0 && m.marks == c.1
        }),
{
    let cs = chars_of(line.as_str());
    let total = line.as_str().as_bytes().len();
    proof {
        assert(cs@.take(cs@.len() as int) =~= cs@);
    }
    let mut byte_cursor: usize = 0;
    let mut before: usize = 0;
    let mut marks: usize = 0;
    let mut k: usize = 0;
    assert(cs@.take(0) =~= Seq::<char>::empty());
    while k < cs.len()
        invariant
            cs@ == line@,
            total == byte_pos(cs@, cs@.len() as int),
            k <= cs@.len(),
            byte_cursor == byte_pos(cs@, k as int),
            before <= k,
            marks <= k,
            before == mark_counts(cs@, k as int, left as int, right as int).0,
            marks == mark_counts(cs@, k as int, left as int, right as int).1,
        decreases cs@.len() - k,
    {
        proof {
            lemma_byte_pos_step(cs@, k as int);
            lemma_byte_pos_mono(cs@, k + 1, cs@.len() as int);
        }
        let ch_start = byte_cursor;
        let ch_end = byte_cursor + utf8_width(cs[k]);
        if ch_end <= left {
            before = before + 1;
        }
        if right > ch_start && left < ch_end {
            marks = marks + 1;
        }
        byte_cursor = ch_end;
        k = k + 1;
    }
    LineMark { before, marks }
}

proof fn lemma_decimal_width_bound(n: nat)
    ensures
        decimal_width(n) >= 1,
        n >= 1 ==> decimal_width(n) <= n,
        n >= 10 ==> decimal_width(n) >= 2,
    decreases n,
{
    if n >= 10 {
        lemma_decimal_width_bound(n / 10);
    }
}

/// The number of decimal digits of `n`.
pub fn number_width(n: usize) -> (w: usize)
    ensures
        w == decimal_width(n as nat),
{
    let mut w: usize = 1;
    let mut m = n;
    proof {
        lemma_decimal_width_bound(n as nat);
    }
    while m >= 10
        invariant
            w + decimal_width(m as nat) == 1 + decimal_width(n as nat),
            decimal_width(m as nat) >= 1,
            n >= 10 ==> decimal_width(n as nat) <= n,
        decreases m,
    {
        proof {
            lemma_decimal_width_bound(m as nat);
            lemma_decimal_width_bound(m as nat / 10);
        }
        assert(decimal_width(m as nat) == 1 + decimal_width((m / 10) as nat));
        m = m / 10;
        w = w + 1;
    }
    w
}

// ---------------------------------------------------------------------------
// Drawing a section
// ---------------------------------------------------------------------------

pub open spec fn repeat_char(c: char, n: nat) -> Seq<char> {
    Seq::new(n, |_i: int| c)
}

/// `s` right-aligned in a field of `w` characters.
pub open spec fn pad_left(s: Seq<char>, w: nat) -> Seq<char> {
    if s.len() < w {
        repeat_char(' ', (w - s.len()) as nat) + s
    } else {
        s
    }
}

/// A source line as drawn: its number right-aligned in `width`, a bar, the text.
pub open spec fn drawn_line(line: Seq<char>, no: nat, width: nat) -> Seq<char> {
    pad_left(decimal_text(no), width) + " | "@ + line
}

/// The line drawn under a source line: an empty number field, a bar, and,
/// when some character is marked, `before` spaces and `marks` carets.
pub open spec fn drawn_marks(width: nat, before: nat, marks: nat) -> Seq<char> {
    repeat_char(' ', width) + " | "@ + if marks == 0 {
        Seq::<char>::empty()
    } else {
        repeat_char(' ', before) + repeat_char('^', marks)
    }
}

pub proof fn lemma_decimal_text_len(n: nat)
    ensures
        decimal_text(n).len() == decimal_width(n),
    decreases n,
{
    if n >= 10 {
        lemma_decimal_text_len(n / 10);
    }
}

fn push_repeat(s: &mut String, c: char, n: usize)
    ensures
        final(s)@ == old(s)@ + repeat_char(c, n as nat),
{
    let mut i: usize = 0;
    while i < n
        invariant
            i <= n,
            s@ == old(s)@ + repeat_char(c, i as nat),
        decreases n - i,
    {
        string_push(s, c);
        i = i + 1;
        assert(s@ =~= old(s)@ + repeat_char(c, i as nat));
    }
}

impl LineInfo {
    /// The text that shows the section: for each line, the line with its
    /// number, then the line of marks under it. Numbers are right-aligned
    /// to the width of the last line's number.
    pub fn render(&self) -> (r: Vec<String>)
        requires
            self.line_no() + if self.lines_view().len() > 0 {
                self.lines_view().len() - 1
            } else {
                0
            } <= usize::MAX,
        ensures
            r@.len() == 2 * self.lines_view().len(),
            forall|i: int|
                0 <= i < self.lines_view().len() ==> {
                    let line = #[trigger] self.lines_view()[i];
                    let width = decimal_width(
                        (self.line_no() + if self.lines_view().len() > 0 {
                            self.lines_view().len() - 1
                        } else {
                            0
                        }) as nat,
                    );
                    let c = mark_counts(
                        line,
                        line.len() as int,
                        if self.mark_left() >= self.start() {
                            self.mark_left() - self.start()
                        } else {
                            0
                        },
                        if self.mark_right() >= self.start() {
                            self.mark_right() - self.start()
                        } else {
                            0
                        },
                    );
                    &&& r@[2 * i]@ == drawn_line(line, (self.line_no() + i) as nat, width)
                    &&& r@[2 * i + 1]@ == drawn_marks(width, c.0, c.1)
                },
    {
        let last = self.last_line_no();
        let width = number_width(last);
        let marks = self.marks();
        let mut out: Vec<String> = Vec::new();
        let mut i: usize = 0;
        while i < self.lines.len()
            invariant
                i <= self.lines@.len(),
                last <= usize::MAX,
                marks@.len() == self.lines_view().len(),
                out@.len() == 2 * i,
                width == decimal_width(last as nat),
                last == self.line_no() + if self.lines_view().len() > 0 {
                    self.lines_view().len() - 1
                } else {
                    0
                },
                forall|k: int|
                    0 <= k < marks@.len() ==> {
                        let line = #[trigger] self.lines_view()[k];
                        let c = mark_counts(
                            line,
                            line.len() as int,
                            if self.mark_left() >= self.start() {
                                self.mark_left() - self.start()
                            } else {
                                0
                            },
                            if self.mark_right() >= self.start() {
                                self.mark_right() - self.start()
                            } else {
                                0
                            },
                        );
                        marks@[k].before == c.0 && marks@[k].marks == c.1
                    },
                forall|k: int|
                    0 <= k < i ==> {
                        let line = #[trigger] self.lines_view()[k];
                        let c = (marks@[k].before as nat, marks@[k].marks as nat);
                        &&& out@[2 * k]@ == drawn_line(line, (self.line_no() + k) as nat, width as nat)
                        &&& out@[2 * k + 1]@ == drawn_marks(width as nat, c.0, c.1)
                    },
            decreases self.lines@.len() - i,
        {
            let no = self.line_no + i;
            let mut digits = String::new();
            push_decimal(&mut digits, no);
            let dw = number_width(no);
            proof {
                lemma_decimal_text_len(no as nat);
            }
            let mut a = String::new();
            if dw < width {
                push_repeat(&mut a, ' ', width - dw);
            }
            a.append(digits.as_str());
            a.append(" | ");
            a.append(self.lines[i].as_str());
            assert(a@ =~= drawn_line(self.lines_view()[i as int], no as nat, width as nat));
            let mut b = String::new();
            push_repeat(&mut b, ' ', width);
            b.append(" | ");
            let m = &marks[i];
            if m.marks > 0 {
                push_repeat(&mut b, ' ', m.before);
                push_repeat(&mut b, '^', m.marks);
            }
            assert(b@ =~= drawn_marks(width as nat, m.before as nat, m.marks as nat));
            out.push(a);
            out.push(b);
            i = i + 1;
        }
        out
    }
}

// ---------------------------------------------------------------------------
// FErrorManager
// ---------------------------------------------------------------------------

/// Finds the lines of a source file around a span.
pub struct FErrorManager {
    file: String,
    chars: Vec<char>,
}

impl FErrorManager {
    /// The source text.
    pub closed spec fn text(&self) -> Seq<char> {
        self.file@
    }

    pub closed spec fn wf(&self) -> bool {
        &&& self.chars@ == self.file@
        &&& byte_pos(self.chars@, self.chars@.len() as int) < usize::MAX
    }

    /// `file`'s length in bytes must leave room for one more, as every
    /// `String`'s does.
    pub fn new(file: String) -> (r: FErrorManager)
        requires
            byte_pos(file@, file@.len() as int) < usize::MAX,
        ensures
            r.wf(),
            r.text() == file@,
    {
        let chars = chars_of(file.as_str());
        FErrorManager { file, chars }
    }

    /// The character position whose byte offset is `b`.
    fn char_index_of(&self, b: usize) -> (i: usize)
        requires
            self.wf(),
            is_boundary(self.chars@, b as int),
        ensures
            i <= self.chars@.len(),
            byte_pos(self.chars@, i as int) == b,
            i == char_index(self.chars@, b as int),
    {
        let ghost f = self.chars@;
        let ghost w = choose|w: int| 0 <= w <= f.len() && #[trigger] byte_pos(f, w) == b;
        let mut k: usize = 0;
        let mut bc: usize = 0;
        assert(f.take(0) =~= Seq::<char>::empty());
        while bc < b
            invariant
                self.wf(),
                f == self.chars@,
                0 <= w <= f.len(),
                byte_pos(f, w) == b,
                k <= w,
                bc == byte_pos(f, k as int),
            decreases b - bc,
        {
            proof {
                if k as int >= w {
                    lemma_byte_pos_mono(f, w, k as int);
                }
                crate::text::lemma_byte_pos_ge(f, f.len() as int);
                lemma_byte_pos_step(f, k as int);
                lemma_byte_pos_mono(f, k + 1, w);
                crate::text::lemma_width_pos(f[k as int]);
            }
            bc = bc + utf8_width(self.chars[k]);
            k = k + 1;
        }
        proof {
            if (k as int) < w {
                lemma_byte_pos_strict(f, k as int, w);
            }
            let c = char_index(f, b as int);
            if c < k {
                lemma_byte_pos_strict(f, c, k as int);
            } else if c > k {
                lemma_byte_pos_strict(f, k as int, c);
            }
        }
        k
    }

    /// The byte offset of character position `i`.
    fn byte_offset(&self, i: usize) -> (b: usize)
        requires
            self.wf(),
            i <= self.chars@.len(),
        ensures
            b == byte_pos(self.chars@, i as int),
    {
        let ghost f = self.chars@;
        let mut k: usize = 0;
        let mut bc: usize = 0;
        assert(f.take(0) =~= Seq::<char>::empty());
        while k < i
            invariant
                self.wf(),
                f == self.chars@,
                k <= i <= f.len(),
                bc == byte_pos(f, k as int),
            decreases i - k,
        {
            proof {
                lemma_byte_pos_step(f, k as int);
                lemma_byte_pos_mono(f, k + 1, f.len() as int);
            }
            bc = bc + utf8_width(self.chars[k]);
            k = k + 1;
        }
        bc
    }

    fn line_start_of(&self, i: usize) -> (r: usize)
        requires
            i <= self.chars@.len(),
        ensures
            r == line_start(self.chars@, i as int),
            r <= i,
    {
        let ghost f = self.chars@;
        let mut ls = i;
        while ls > 0 && self.chars[ls - 1] != '\n'
            invariant
                f == self.chars@,
                ls <= i <= f.len(),
                line_start(f, ls as int) == line_start(f, i as int),
            decreases ls,
        {
            ls = ls - 1;
        }
        ls
    }

    fn line_end_of(&self, j: usize) -> (r: usize)
        requires
            j <= self.chars@.len(),
        ensures
            r == line_end(self.chars@, j as int),
            j <= r <= self.chars@.len(),
    {
        let ghost f = self.chars@;
        let mut le = j;
        while le < self.chars.len() && self.chars[le] != '\n'
            invariant
                f == self.chars@,
                j <= le <= f.len(),
                line_end(f, le as int) == line_end(f, j as int),
            decreases f.len() - le,
        {
            le = le + 1;
        }
        if le < self.chars.len() {
            le = le + 1;
        }
        le
    }

    /// The character position whose byte offset is `b`, if there is one.
    fn find_boundary(&self, b: usize) -> (r: Option<usize>)
        requires
            self.wf(),
        ensures
            r is None <==> !is_boundary(self.chars@, b as int),
            r matches Some(i) ==> i <= self.chars@.len() && byte_pos(self.chars@, i as int) == b,
    {
        let ghost f = self.chars@;
        let mut k: usize = 0;
        let mut bc: usize = 0;
        assert(f.take(0) =~= Seq::<char>::empty());
        while bc < b && k < self.chars.len()
            invariant
                self.wf(),
                f == self.chars@,
                k <= f.len(),
                bc == byte_pos(f, k as int),
                k == 0 || byte_pos(f, k - 1) < b,
            decreases f.len() - k,
        {
            proof {
                lemma_byte_pos_step(f, k as int);
                lemma_byte_pos_mono(f, k + 1, f.len() as int);
            }
            bc = bc + utf8_width(self.chars[k]);
            k = k + 1;
        }
        if bc == b {
            Some(k)
        } else {
            proof {
                if is_boundary(f, b as int) {
                    let w = choose|w: int| 0 <= w <= f.len() && #[trigger] byte_pos(f, w) == b;
                    if w < k {
                        if w < k - 1 {
                            lemma_byte_pos_strict(f, w, k - 1);
                        }
                    } else if w > k {
                        lemma_byte_pos_strict(f, k as int, w);
                    }
                }
            }
            None
        }
    }

    /// Whether `section_at_pos` can locate `pos`.
    pub fn can_locate(&self, pos: &Span) -> (r: bool)
        requires
            self.wf(),
        ensures
            r == section_defined(self.text(), *pos),
    {
        let si = match self.find_boundary(pos.start) {
            Some(i) => i,
            None => {
                return false;
            },
        };
        let ei = match self.find_boundary(pos.end) {
            Some(i) => i,
            None => {
                return false;
            },
        };
        proof {
            let f = self.chars@;
            let c1 = char_index(f, pos.start as int);
            let c2 = char_index(f, pos.end as int);
            if c1 != si {
                if c1 < si {
                    lemma_byte_pos_strict(f, c1, si as int);
                } else {
                    lemma_byte_pos_strict(f, si as int, c1);
                }
            }
            if c2 != ei {
                if c2 < ei {
                    lemma_byte_pos_strict(f, c2, ei as int);
                } else {
                    lemma_byte_pos_strict(f, ei as int, c2);
                }
            }
        }
        self.line_start_of(si) <= self.line_end_of(ei)
    }

    /// The lines that hold `pos`, where they start, and the number of the first.
    pub fn section_at_pos(&self, pos: &Span) -> (r: LineInfo)
        requires
            self.wf(),
            section_defined(self.text(), *pos),
        ensures
            r.lines_view() == split_lines(
                self.text().subrange(
                    section_first(self.text(), *pos),
                    section_last(self.text(), *pos),
                ),
            ),
            r.start() == byte_pos(self.text(), section_first(self.text(), *pos)),
            r.mark_left() == pos.start,
            r.mark_right() == pos.end,
            r.line_no() == count_newlines(self.text().take(section_first(self.text(), *pos))) + 1,
    {
        let ghost f = self.chars@;
        let si = self.char_index_of(pos.start);
        let ei = self.char_index_of(pos.end);
        let ls = self.line_start_of(si);
        let le = self.line_end_of(ei);
        let before_start = self.byte_offset(ls);
        // Count the newlines before the section.
        let mut count: usize = 0;
        let mut k: usize = 0;
        assert(f.take(0) =~= Seq::<char>::empty());
        while k < ls
            invariant
                f == self.chars@,
                ls <= f.len(),
                k <= ls,
                count <= k,
                count == count_newlines(f.take(k as int)),
            decreases ls - k,
        {
            assert(f.take(k + 1).drop_last() =~= f.take(k as int));
            if self.chars[k] == '\n' {
                count = count + 1;
            }
            k = k + 1;
        }
        proof {
            lemma_byte_pos_mono(f, ls as int, f.len() as int);
            crate::text::lemma_byte_pos_ge(f, f.len() as int);
        }
        // Split the section into lines.
        let mut lines: Vec<String> = Vec::new();
        let mut cur = String::new();
        let mut k: usize = ls;
        assert(f.subrange(ls as int, ls as int) =~= Seq::<char>::empty());
        assert(strings_view(lines@) =~= Seq::<Seq<char>>::empty());
        while k < le
            invariant
                f == self.chars@,
                ls <= k <= le <= f.len(),
                strings_view(lines@) == split_acc(f.subrange(ls as int, k as int)).0,
                cur@ == split_acc(f.subrange(ls as int, k as int)).1,
            decreases le - k,
        {
            let ghost seg = f.subrange(ls as int, k + 1);
            assert(seg.drop_last() =~= f.subrange(ls as int, k as int));
            assert(seg.last() == f[k as int]);
            if self.chars[k] == '\n' {
                let done = cur;
                assert(strings_view(lines@.push(done)) =~= strings_view(lines@).push(done@));
                lines.push(done);
                cur = String::new();
            } else {
                string_push(&mut cur, self.chars[k]);
            }
            k = k + 1;
        }
        if cur.as_str().as_bytes().len() > 0 {
            assert(strings_view(lines@.push(cur)) =~= strings_view(lines@).push(cur@));
            lines.push(cur);
        } else {
            assert(cur@.len() == 0) by {
                if cur@.len() > 0 {
                    assert(crate::text::char_width(cur@[0]) >= 1) by {
                        crate::text::lemma_width_pos(cur@[0]);
                    }
                    assert(cur@ =~= seq![cur@[0]] + cur@.drop_first());
                    crate::text::lemma_encode_concat(seq![cur@[0]], cur@.drop_first());
                    crate::text::lemma_encode_single(cur@[0]);
                }
            }
        }
        LineInfo::new(lines, before_start, pos.start, pos.end, count + 1)
    }
}

} // verus!
