use vstd::prelude::*;
use vstd::string::StrSliceExecFns;

verus! {

pub const DEFAULT_WIDTH: u32 = 65;

pub const DEFAULT_HYPHENATION: bool = false;

/// Characters that separate words.
pub open spec fn is_space(c: char) -> bool {
    c == ' ' || c == '\t'
}

/// The end of the run of spaces that starts at `p`.
pub open spec fn skip_spaces(text: Seq<char>, p: int) -> int
    decreases text.len() - p,
{
    if p < 0 || p >= text.len() || !is_space(text[p]) {
        p
    } else {
        skip_spaces(text, p + 1)
    }
}

/// The end of the word that starts at `p`.
pub open spec fn skip_word(text: Seq<char>, p: int) -> int
    decreases text.len() - p,
{
    if p < 0 || p >= text.len() || is_space(text[p]) {
        p
    } else {
        skip_word(text, p + 1)
    }
}

/// Filling one line from read position `pos`, with the line so far being
/// `text[ls..le]`: words, each with the spaces before it, join the line while
/// the line stays within `width` characters. The first word that does not fit
/// ends the line: it starts the next line, or, when it is longer than a whole
/// line, fills this line up to `width` and leaves the rest for the next.
/// Gives the line's bounds, the new read position, and where the next line
/// starts if a word was carried over.
pub open spec fn fill(text: Seq<char>, width: int, ls: int, le: int, pos: int) -> (int, int, int, Option<int>)
    decreases text.len() - pos,
{
    if pos < 0 || pos >= text.len() {
        (ls, le, pos, None)
    } else {
        let sp_end = skip_spaces(text, pos);
        if sp_end >= text.len() {
            (ls, le, sp_end, None)
        } else {
            let w_end = skip_word(text, sp_end);
            if w_end - ls > width {
                let line_len = le - ls;
                let remaining = if line_len <= width { width - line_len } else { 0 };
                if w_end - sp_end > width {
                    (ls, pos + remaining, w_end, Some(pos + remaining))
                } else {
                    (ls, le, w_end, Some(sp_end))
                }
            } else if pos < w_end && w_end <= text.len() {
                fill(text, width, ls, w_end, w_end)
            } else {
                (ls, le, pos, None)
            }
        }
    }
}

fn space(c: char) -> (r: bool)
    ensures
        r == is_space(c),
{
    c == ' ' || c == '\t'
}

/// Breaks a text into lines of at most `width` characters at spaces. A word
/// longer than a whole line is cut where the line ends. Spaces at the end of
/// the text are dropped.
#[derive(Debug)]
pub struct AutoFill {
    src: String,
    text: Vec<char>,
    pos: usize,
    width: u32,
    hyphenation: bool,
    line_start: usize,
    line_end: usize,
    overflow: Option<usize>,
}

impl AutoFill {
    /// The characters of the text.
    pub closed spec fn spec_text(&self) -> Seq<char> {
        self.src@
    }

    pub closed spec fn spec_width(&self) -> u32 {
        self.width
    }

    pub closed spec fn spec_hyphenation(&self) -> bool {
        self.hyphenation
    }

    /// How far the text has been read.
    pub closed spec fn spec_pos(&self) -> nat {
        self.pos as nat
    }

    /// Where the next line starts when a word was carried over to it.
    pub closed spec fn spec_overflow(&self) -> Option<usize> {
        self.overflow
    }

    pub closed spec fn wf(&self) -> bool {
        &&& self.text@ == self.src@
        &&& self.pos <= self.text@.len()
        &&& self.line_start <= self.line_end <= self.pos
        &&& self.overflow matches Some(o) ==> o <= self.pos
    }

    pub fn new(s: &str) -> (r: AutoFill)
        ensures
            r.wf(),
            r.spec_text() == s@,
            r.spec_pos() == 0,
            r.spec_width() == DEFAULT_WIDTH,
            r.spec_hyphenation() == DEFAULT_HYPHENATION,
    {
        let n = s.unicode_len();
        let mut text: Vec<char> = Vec::new();
        let mut i: usize = 0;
        while i < n
            invariant
                n == s@.len(),
                i <= n,
                text@ == s@.subrange(0, i as int),
            decreases n - i,
        {
            text.push(s.get_char(i));
            i += 1;
            assert(text@ =~= s@.subrange(0, i as int));
        }
        assert(text@ =~= s@);
        AutoFill {
            src: s.to_owned(),
            text,
            pos: 0,
            width: DEFAULT_WIDTH,
            hyphenation: DEFAULT_HYPHENATION,
            line_start: 0,
            line_end: 0,
            overflow: None,
        }
    }

    pub fn with_hyphenation(self, hyphen: bool) -> (r: AutoFill)
        requires
            self.wf(),
        ensures
            r.wf(),
            r.spec_hyphenation() == hyphen,
            r.spec_text() == self.spec_text(),
            r.spec_pos() == self.spec_pos(),
            r.spec_width() == self.spec_width(),
    {
        AutoFill { hyphenation: hyphen, ..self }
    }

    pub fn with_width(self, width: u32) -> (r: AutoFill)
        requires
            self.wf(),
        ensures
            r.wf(),
            r.spec_width() == width,
            r.spec_text() == self.spec_text(),
            r.spec_pos() == self.spec_pos(),
            r.spec_hyphenation() == self.spec_hyphenation(),
    {
        AutoFill { width, ..self }
    }

    /// Reads the run of spaces at the read position; `None` at the end of
    /// the text. Returns where the run starts and ends.
    fn spaces(&mut self) -> (r: Option<(usize, usize)>)
        requires
            old(self).wf(),
        ensures
            final(self).wf(),
            final(self).text == old(self).text,
            final(self).src == old(self).src,
            final(self).width == old(self).width,
            final(self).hyphenation == old(self).hyphenation,
            final(self).line_start == old(self).line_start,
            final(self).line_end == old(self).line_end,
            final(self).overflow == old(self).overflow,
            old(self).pos == old(self).text@.len() ==> r is None && final(self).pos == old(self).pos,
            old(self).pos < old(self).text@.len() ==> (r matches Some(p) && p.0 == old(self).pos
                && p.1 == final(self).pos && p.0 <= p.1),
            forall|k: int| old(self).pos <= k < final(self).pos ==> is_space(#[trigger] old(self).text@[k]),
            final(self).pos < old(self).text@.len() ==> !is_space(old(self).text@[final(self).pos as int]),
            final(self).pos == skip_spaces(old(self).text@, old(self).pos as int),
    {
        if self.pos == self.text.len() {
            return None;
        }
        let start = self.pos;
        let mut j = self.pos;
        while j < self.text.len() && space(self.text[j])
            invariant
                start <= j <= self.text@.len(),
                forall|k: int| start <= k < j ==> is_space(#[trigger] self.text@[k]),
                skip_spaces(self.text@, j as int) == skip_spaces(self.text@, start as int),
            decreases self.text@.len() - j,
        {
            j += 1;
        }
        self.pos = j;
        Some((start, j))
    }

    /// Reads the word at the read position; `None` at the end of the text.
    fn non_spaces(&mut self) -> (r: Option<(usize, usize)>)
        requires
            old(self).wf(),
        ensures
            final(self).wf(),
            final(self).text == old(self).text,
            final(self).src == old(self).src,
            final(self).width == old(self).width,
            final(self).hyphenation == old(self).hyphenation,
            final(self).line_start == old(self).line_start,
            final(self).line_end == old(self).line_end,
            final(self).overflow == old(self).overflow,
            old(self).pos == old(self).text@.len() ==> r is None && final(self).pos == old(self).pos,
            old(self).pos < old(self).text@.len() ==> (r matches Some(p) && p.0 == old(self).pos
                && p.1 == final(self).pos && p.0 <= p.1),
            forall|k: int| old(self).pos <= k < final(self).pos ==> !is_space(#[trigger] old(self).text@[k]),
            old(self).pos < old(self).text@.len() && !is_space(old(self).text@[old(self).pos as int])
                ==> final(self).pos > old(self).pos,
            final(self).pos == skip_word(old(self).text@, old(self).pos as int),
    {
        if self.pos == self.text.len() {
            return None;
        }
        let start = self.pos;
        let mut j = self.pos;
        while j < self.text.len() && !space(self.text[j])
            invariant
                start <= j <= self.text@.len(),
                forall|k: int| start <= k < j ==> !is_space(#[trigger] self.text@[k]),
                skip_word(self.text@, j as int) == skip_word(self.text@, start as int),
            decreases self.text@.len() - j,
        {
            j += 1;
        }
        self.pos = j;
        Some((start, j))
    }

    /// The next line, or `None` when the text is used up (see `fill`). A
    /// line is a piece of the text as it stands, without the spaces that
    /// separate it from the lines around it.
    pub fn next(&mut self) -> (r: Option<String>)
        requires
            old(self).wf(),
            !old(self).spec_hyphenation(),
        ensures
            final(self).wf(),
            final(self).spec_text() == old(self).spec_text(),
            final(self).spec_width() == old(self).spec_width(),
            final(self).spec_hyphenation() == old(self).spec_hyphenation(),
            ({
                let pos = old(self).spec_pos() as int;
                let ls = match old(self).spec_overflow() {
                    Some(o) => o as int,
                    None => pos,
                };
                let (a, b, p, ov) = fill(
                    old(self).spec_text(),
                    old(self).spec_width() as int,
                    ls,
                    pos,
                    pos,
                );
                &&& final(self).spec_pos() == p
                &&& final(self).spec_overflow() == match ov {
                    Some(o) => Some(o as usize),
                    None => None::<usize>,
                }
                &&& a == b ==> r is None
                &&& a != b ==> (r matches Some(line) && line@ == old(self).spec_text().subrange(a, b))
            }),
    {
        match self.overflow {
            Some(o) => {
                self.line_start = o;
                self.line_end = self.pos;
                self.overflow = None;
            },
            None => {
                self.line_start = self.pos;
                self.line_end = self.pos;
            },
        }
        let ghost target = fill(
            self.text@,
            self.width as int,
            self.line_start as int,
            self.line_end as int,
            self.pos as int,
        );
        loop
            invariant_except_break
                self.overflow is None,
                self.line_end == self.pos,
                fill(self.text@, self.width as int, self.line_start as int, self.line_end as int, self.pos as int) == target,
            invariant
                self.wf(),
                self.text@ == old(self).text@,
                self.src == old(self).src,
                self.width == old(self).width,
                self.hyphenation == old(self).hyphenation,
            ensures
                self.wf(),
                self.text@ == old(self).text@,
                self.src == old(self).src,
                self.width == old(self).width,
                self.hyphenation == old(self).hyphenation,
                (self.line_start as int, self.line_end as int, self.pos as int, match self.overflow {
                    Some(o) => Some(o as int),
                    None => None::<int>,
                }) == target,
            decreases self.text@.len() - self.pos,
        {
            let ghost before = (self.line_start as int, self.line_end as int, self.pos as int);
            let spaces = self.spaces();
            let word = self.non_spaces();
            match (spaces, word) {
                (Some((sp_start, sp_end)), Some((_w_start, w_end))) => {
                    let line_len = self.line_end - self.line_start;
                    let new_len = w_end - self.line_start;
                    if new_len > self.width as usize {
                        let remaining = if line_len <= self.width as usize {
                            self.width as usize - line_len
                        } else {
                            0
                        };
                        let word_len = w_end - sp_end;
                        if word_len > self.width as usize {
                            self.line_end = sp_start + remaining;
                            self.overflow = Some(sp_start + remaining);
                        } else {
                            self.overflow = Some(sp_end);
                        }
                        break;
                    } else {
                        self.line_end = w_end;
                    }
                },
                _ => {
                    break;
                },
            }
        }
        let (a, b) = (self.line_start, self.line_end);
        self.line_start = self.pos;
        self.line_end = self.pos;
        if a == b {
            None
        } else {
            let line = self.src.as_str().substring_char(a, b).to_owned();
            assert(line@ == old(self).spec_text().subrange(a as int, b as int));
            Some(line)
        }
    }
}

} // verus!
