//! Scrolling command output: a window of the most recent lines that is
//! redrawn in place, and the assembly of lines from raw output bytes.
use vstd::prelude::*;

use crate::text::{
    chars_of, join_lines, lemma_split_count, lemma_split_join, push_char, split_on, split_text,
    string_of_range, strings_view,
};

verus! {

/// A window onto the last `max_lines` lines written, kept with the line
/// still being written.
pub struct TemporaryOutput {
    line_buffer: Vec<String>,
    current_line: String,
    max_lines: usize,
}

/// The window's contents.
pub struct TemporaryOutputModel {
    pub lines: Seq<Seq<char>>,
    pub current: Seq<char>,
    pub max_lines: nat,
}

impl View for TemporaryOutput {
    type V = TemporaryOutputModel;

    closed spec fn view(&self) -> TemporaryOutputModel {
        TemporaryOutputModel {
            lines: strings_view(self.line_buffer@),
            current: self.current_line@,
            max_lines: self.max_lines as nat,
        }
    }
}

/// What to draw after a write: move up over and blank `erase` old lines,
/// then write `lines`, each ending with a line break.
pub struct Redraw {
    pub erase: usize,
    pub lines: Vec<String>,
}

/// The last `max` lines.
pub open spec fn keep_last(lines: Seq<Seq<char>>, max: nat) -> Seq<Seq<char>> {
    if lines.len() > max {
        lines.skip(lines.len() - max)
    } else {
        lines
    }
}

/// The window after writing `text`. Without a line break the text extends
/// the current line. With one, the current line and the text up to the first
/// break become a line, every further complete piece becomes a line, the
/// current line is left empty (the text after the last break is not kept),
/// and only the last `max_lines` lines stay.
pub open spec fn written(st: TemporaryOutputModel, text: Seq<char>) -> TemporaryOutputModel {
    let pieces = split_on(text, '\n');
    let complete = pieces.drop_last();
    if complete.len() == 0 {
        TemporaryOutputModel {
            lines: keep_last(st.lines, st.max_lines),
            current: st.current + pieces.last(),
            max_lines: st.max_lines,
        }
    } else {
        TemporaryOutputModel {
            lines: keep_last(
                st.lines + seq![st.current + complete[0]] + complete.drop_first(),
                st.max_lines,
            ),
            current: Seq::empty(),
            max_lines: st.max_lines,
        }
    }
}

/// `s` with every tab replaced by four spaces.
pub open spec fn expand_tabs(s: Seq<char>) -> Seq<char>
    decreases s.len(),
{
    if s.len() == 0 {
        s
    } else {
        expand_tabs(s.drop_last()) + (if s.last() == '\t' {
            seq![' ', ' ', ' ', ' ']
        } else {
            seq![s.last()]
        })
    }
}

/// How a line is shown: tabs expanded, cut to the terminal's width.
pub open spec fn shown(line: Seq<char>, width: nat) -> Seq<char> {
    let e = expand_tabs(line);
    if e.len() > width {
        e.take(width as int)
    } else {
        e
    }
}

/// What drawing a window shows.
pub open spec fn shown_lines(lines: Seq<Seq<char>>, width: nat) -> Seq<Seq<char>> {
    lines.map_values(|l: Seq<char>| shown(l, width))
}

/// `line` as shown on a terminal `width` characters wide.
fn show_line(line: &String, width: usize) -> (r: String)
    ensures
        r@ == shown(line@, width as nat),
{
    let cs = chars_of(line.as_str());
    let mut e: Vec<char> = Vec::new();
    let mut i: usize = 0;
    while i < cs.len()
        invariant
            i <= cs.len(),
            cs@ == line@,
            e@ == expand_tabs(cs@.take(i as int)),
        decreases cs.len() - i,
    {
        assert(cs@.take(i + 1).drop_last() =~= cs@.take(i as int));
        assert(cs@.take(i + 1).last() == cs@[i as int]);
        if cs[i] == '\t' {
            e.push(' ');
            e.push(' ');
            e.push(' ');
            e.push(' ');
        } else {
            e.push(cs[i]);
        }
        assert(e@ =~= expand_tabs(cs@.take(i + 1)));
        i = i + 1;
    }
    assert(cs@.take(cs.len() as int) =~= cs@);
    let end = if e.len() > width {
        width
    } else {
        e.len()
    };
    assert(e@.take(end as int) =~= e@.subrange(0, end as int));
    assert(e@.subrange(0, e.len() as int) =~= e@);
    string_of_range(&e, 0, end)
}

impl TemporaryOutput {
    /// An empty window of `max_lines` lines.
    pub fn new(max_lines: usize) -> (t: TemporaryOutput)
        ensures
            t@.lines == Seq::<Seq<char>>::empty(),
            t@.current == Seq::<char>::empty(),
            t@.max_lines == max_lines,
    {
        let t = TemporaryOutput {
            current_line: String::new(),
            line_buffer: Vec::new(),
            max_lines,
        };
        assert(t@.lines =~= Seq::<Seq<char>>::empty());
        t
    }

    /// Writes `text` and says how to redraw the window on a terminal
    /// `terminal_width` characters wide.
    pub fn print(&mut self, text: &str, terminal_width: usize) -> (redraw: Redraw)
        ensures
            final(self)@ == written(old(self)@, text@),
            redraw.erase == old(self)@.lines.len(),
            strings_view(redraw.lines@) == shown_lines(final(self)@.lines, terminal_width as nat),
    {
        let erase = self.line_buffer.len();
        let pieces = split_text(text, '\n');
        let ghost pv = strings_view(pieces@);
        let n = pieces.len();
        assert(n == pv.len());
        let ghost start = self@;
        let ghost target = written(start, text@);
        if n == 1 {
            self.current_line.append(pieces[0].as_str());
            assert(pv.last() == pv[0]);
            assert(pv.drop_last().len() == 0);
            assert(self.current_line@ == target.current);
        } else {
            let mut first = self.current_line.clone();
            first.append(pieces[0].as_str());
            let ghost before = self.line_buffer@;
            self.line_buffer.push(first);
            assert(strings_view(self.line_buffer@) =~= strings_view(before).push(
                start.current + pv[0],
            ));
            let mut j: usize = 1;
            while j + 1 < n
                invariant
                    1 <= j < n,
                    n == pieces.len(),
                    pv == strings_view(pieces@),
                    self.max_lines as nat == start.max_lines,
                    strings_view(self.line_buffer@) == start.lines + seq![start.current + pv[0]]
                        + pv.drop_last().drop_first().take(j - 1),
                decreases n - j,
            {
                let ghost before = self.line_buffer@;
                self.line_buffer.push(pieces[j].clone());
                assert(pv.drop_last().drop_first().take(j as int) =~= pv.drop_last().drop_first().take(
                    j - 1,
                ).push(pv[j as int]));
                assert(strings_view(self.line_buffer@) =~= strings_view(before).push(
                    pv[j as int],
                ));
                j = j + 1;
            }
            assert(pv.drop_last().drop_first().take(j - 1) =~= pv.drop_last().drop_first());
            assert(pv.drop_last()[0] == pv[0]);
            self.current_line = String::new();
            assert(pv.drop_last().len() > 0);
        }
        assert(target.lines == keep_last(strings_view(self.line_buffer@), start.max_lines));
        let ghost grown = strings_view(self.line_buffer@);
        let len = self.line_buffer.len();
        if len > self.max_lines {
            let mut kept: Vec<String> = Vec::new();
            let first = len - self.max_lines;
            let mut k = first;
            while k < len
                invariant
                    first <= k <= len == self.line_buffer.len(),
                    grown == strings_view(self.line_buffer@),
                    strings_view(kept@) == grown.subrange(first as int, k as int),
                decreases len - k,
            {
                let ghost before = kept@;
                kept.push(self.line_buffer[k].clone());
                assert(strings_view(kept@) =~= strings_view(before).push(grown[k as int]));
                assert(grown.subrange(first as int, k + 1) =~= grown.subrange(
                    first as int,
                    k as int,
                ).push(grown[k as int]));
                k = k + 1;
            }
            assert(grown.skip(first as int) =~= grown.subrange(first as int, len as int));
            assert(grown.len() == len);
            assert(keep_last(grown, start.max_lines) == grown.skip(first as int));
            self.line_buffer = kept;
            assert(strings_view(self.line_buffer@) == keep_last(grown, start.max_lines));
        } else {
            assert(keep_last(grown, start.max_lines) == grown);
        }
        assert(strings_view(self.line_buffer@) == target.lines);
        assert(self@ == written(start, text@));
        let mut lines: Vec<String> = Vec::new();
        let mut k: usize = 0;
        while k < self.line_buffer.len()
            invariant
                k <= self.line_buffer.len(),
                strings_view(lines@) == shown_lines(strings_view(self.line_buffer@).take(k as int), terminal_width as nat),
            decreases self.line_buffer.len() - k,
        {
            let ghost before = lines@;
            let shown_line = show_line(&self.line_buffer[k], terminal_width);
            lines.push(shown_line);
            assert(strings_view(self.line_buffer@).take(k + 1) =~= strings_view(
                self.line_buffer@,
            ).take(k as int).push(self.line_buffer@[k as int]@));
            assert(strings_view(lines@) =~= strings_view(before).push(shown_line@));
            assert(shown_lines(strings_view(self.line_buffer@).take(k + 1), terminal_width as nat)
                =~= shown_lines(strings_view(self.line_buffer@).take(k as int), terminal_width as nat).push(
                shown(self.line_buffer@[k as int]@, terminal_width as nat),
            ));
            k = k + 1;
        }
        assert(strings_view(self.line_buffer@).take(k as int) =~= strings_view(self.line_buffer@));
        Redraw { erase, lines }
    }

    /// Writes `text` and a line break.
    pub fn println(&mut self, text: &str, terminal_width: usize) -> (redraw: Redraw)
        ensures
            final(self)@ == written(old(self)@, text@.push('\n')),
            redraw.erase == old(self)@.lines.len(),
            strings_view(redraw.lines@) == shown_lines(final(self)@.lines, terminal_width as nat),
    {
        let mut line = text.to_owned();
        push_char(&mut line, '\n');
        self.print(line.as_str(), terminal_width)
    }

    /// How many lines clearing the window moves up over and blanks.
    pub fn clear(&self) -> (erase: usize)
        ensures
            erase == self@.lines.len(),
    {
        self.line_buffer.len()
    }
}

/// Splitting by `sep` with `open` already begun: the pieces closed by a
/// separator, and the piece still open at the end.
pub open spec fn split_from(open: Seq<char>, s: Seq<char>, sep: char) -> (Seq<Seq<char>>, Seq<char>)
    decreases s.len(),
{
    if s.len() == 0 {
        (Seq::empty(), open)
    } else {
        let (done, rest) = split_from(open, s.drop_last(), sep);
        if s.last() == sep {
            (done.push(rest), Seq::empty())
        } else {
            (done, rest.push(s.last()))
        }
    }
}

/// Bytes read one character each, the character with the byte's code.
pub open spec fn byte_chars(bytes: Seq<u8>) -> Seq<char> {
    bytes.map_values(|b: u8| b as char)
}

/// The lines of a command's output, assembled from the bytes it writes;
/// each byte is read as the character with that code.
pub struct OutputLines {
    pending: String,
}

impl View for OutputLines {
    type V = Seq<char>;

    closed spec fn view(&self) -> Seq<char> {
        self.pending@
    }
}

impl OutputLines {
    /// Nothing read yet.
    pub fn new() -> (o: OutputLines)
        ensures
            o@ == Seq::<char>::empty(),
    {
        OutputLines { pending: String::new() }
    }

    /// Reads more output; gives back the lines it completes, without their
    /// line breaks, and keeps the unfinished rest.
    pub fn feed(&mut self, bytes: &[u8]) -> (lines: Vec<String>)
        ensures
            (strings_view(lines@), final(self)@) == split_from(old(self)@, byte_chars(bytes@), '\n'),
    {
        let ghost cs = byte_chars(bytes@);
        let ghost start = self@;
        let mut lines: Vec<String> = Vec::new();
        let mut i: usize = 0;
        assert(cs.take(0) =~= Seq::<char>::empty());
        assert(strings_view(lines@) =~= Seq::<Seq<char>>::empty());
        while i < bytes.len()
            invariant
                i <= bytes.len(),
                cs == byte_chars(bytes@),
                (strings_view(lines@), self@) == split_from(start, cs.take(i as int), '\n'),
            decreases bytes.len() - i,
        {
            let c = bytes[i] as char;
            assert(c == cs[i as int]);
            assert(cs.take(i + 1).drop_last() =~= cs.take(i as int));
            assert(cs.take(i + 1).last() == cs[i as int]);
            if c == '\n' {
                let ghost before = lines@;
                let ghost open = self@;
                let mut done = String::new();
                std::mem::swap(&mut done, &mut self.pending);
                lines.push(done);
                assert(strings_view(lines@) =~= strings_view(before).push(open));
            } else {
                push_char(&mut self.pending, c);
            }
            i = i + 1;
        }
        assert(cs.take(bytes.len() as int) =~= cs);
        lines
    }
}

/// The window never holds more lines than it was made for.
pub proof fn lemma_window_bounded(st: TemporaryOutputModel, text: Seq<char>)
    ensures
        written(st, text).lines.len() <= st.max_lines,
        written(st, text).max_lines == st.max_lines,
{
}

/// The window keeps exactly the most recent lines: after a write with `n`
/// line breaks it holds `min(max_lines, lines before + n)` lines. Its last
/// lines are the ones the write completed (the old current line joined to
/// the text before the first break, then the text between later breaks), as
/// many as fit, and the lines before them are the newest of the old lines,
/// in order.
pub proof fn lemma_window_keeps_last(st: TemporaryOutputModel, text: Seq<char>)
    ensures
        ({
            let pieces = split_on(text, '\n');
            let n = text.filter(|c: char| c == '\n').len() as int;
            let g = st.lines.len();
            let w = written(st, text).lines;
            let size = w.len() as int;
            &&& size == (if st.max_lines < g + n { st.max_lines as int } else { g + n })
            &&& forall|j: int|
                0 <= j < size && j + n >= size ==> #[trigger] w[j] == (if j + n == size {
                    st.current + pieces[0]
                } else {
                    pieces[j + n - size]
                })
            &&& forall|j: int| 0 <= j < size && j + n < size ==> #[trigger] w[j] == st.lines[g - size + n + j]
        }),
{
    lemma_split_count(text, '\n');
    let pieces = split_on(text, '\n');
    let complete = pieces.drop_last();
    let n = pieces.len() - 1;
    let g = st.lines.len();
    let grown = if complete.len() == 0 {
        st.lines
    } else {
        st.lines + seq![st.current + complete[0]] + complete.drop_first()
    };
    assert(grown.len() == g + n);
    assert forall|k: int| g <= k < g + n implies grown[k] == (if k == g {
        st.current + pieces[0]
    } else {
        pieces[k - g]
    }) by {
        if k > g {
            assert(grown[k] == complete.drop_first()[k - g - 1]);
        }
    }
    assert(forall|k: int| 0 <= k < g ==> grown[k] == st.lines[k]);
}

/// A line written with its line break (and none inside) becomes the
/// window's last line, joined to what the current line held, and the
/// current line starts over empty.
pub proof fn lemma_println_line(st: TemporaryOutputModel, text: Seq<char>)
    requires
        !text.contains('\n'),
        st.max_lines > 0,
    ensures
        written(st, text.push('\n')).lines.last() == st.current + text,
        written(st, text.push('\n')).current == Seq::<char>::empty(),
{
    let one = seq![text];
    assert forall|i: int| 0 <= i < one.len() implies !(#[trigger] one[i]).contains('\n') by {}
    lemma_split_join(one);
    assert(one.drop_last() =~= Seq::<Seq<char>>::empty());
    assert(join_lines(Seq::<Seq<char>>::empty()) =~= Seq::<char>::empty());
    assert(join_lines(one) =~= text.push('\n'));
    let pieces = split_on(text.push('\n'), '\n');
    assert(pieces == one.push(Seq::<char>::empty()));
    assert(pieces.drop_last() =~= one);
    let grown = st.lines + seq![st.current + text] + one.drop_first();
    assert(grown.last() == st.current + text);
    if grown.len() > st.max_lines {
        let kept = grown.skip(grown.len() - st.max_lines);
        assert(kept.last() == grown.last());
    }
}

/// How the output is cut into reads does not matter: reading `a` and then
/// `b` completes the same lines, and leaves the same unfinished rest, as
/// reading them in one piece.
pub proof fn lemma_reads_compose(open: Seq<char>, a: Seq<char>, b: Seq<char>, sep: char)
    ensures
        ({
            let (first, rest) = split_from(open, a, sep);
            let (second, left) = split_from(rest, b, sep);
            split_from(open, a + b, sep) == (first + second, left)
        }),
    decreases b.len(),
{
    let (first, rest) = split_from(open, a, sep);
    if b.len() == 0 {
        assert(a + b =~= a);
        assert(first + Seq::<Seq<char>>::empty() =~= first);
    } else {
        lemma_reads_compose(open, a, b.drop_last(), sep);
        assert((a + b).drop_last() =~= a + b.drop_last());
        assert((a + b).last() == b.last());
        let (second, left) = split_from(rest, b.drop_last(), sep);
        assert((first + second).push(left) =~= first + second.push(left));
    }
}

/// Nothing of the output is lost or changed: the completed lines, each with
/// its line break put back, followed by the unfinished rest, are exactly
/// the earlier rest followed by what was read; and when the earlier rest
/// holds no line break, no line handed out and not the new rest holds one.
pub proof fn lemma_lines_reassemble(open: Seq<char>, s: Seq<char>)
    ensures
        ({
            let (done, rest) = split_from(open, s, '\n');
            &&& join_lines(done) + rest == open + s
            &&& !open.contains('\n') ==> !rest.contains('\n') && forall|i: int|
                0 <= i < done.len() ==> !(#[trigger] done[i]).contains('\n')
        }),
    decreases s.len(),
{
    if s.len() == 0 {
        assert(join_lines(Seq::<Seq<char>>::empty()) + open =~= open + s);
    } else {
        lemma_lines_reassemble(open, s.drop_last());
        let (done, rest) = split_from(open, s.drop_last(), '\n');
        assert(open + s =~= (open + s.drop_last()).push(s.last()));
        if s.last() == '\n' {
            let d2 = done.push(rest);
            assert(d2.drop_last() =~= done);
            assert(join_lines(d2) + Seq::<char>::empty() =~= join_lines(done) + rest + seq!['\n']);
            if !open.contains('\n') {
                assert forall|i: int| 0 <= i < d2.len() implies !(#[trigger] d2[i]).contains('\n') by {
                    if i < done.len() {
                        assert(d2[i] == done[i]);
                    }
                }
            }
        } else {
            assert(join_lines(done) + rest.push(s.last()) =~= (join_lines(done) + rest).push(s.last()));
            if !open.contains('\n') {
                assert(!rest.push(s.last()).contains('\n')) by {
                    if rest.push(s.last()).contains('\n') {
                        let k = choose|k: int| 0 <= k < rest.len() + 1 && rest.push(s.last())[k] == '\n';
                        if k < rest.len() {
                            assert(rest[k] == '\n');
                        }
                    }
                }
            }
        }
    }
}

/// Showing a line leaves no tab in it: each tab takes four columns, every
/// other character one, and a line without tabs is shown as it is.
pub proof fn lemma_tabs_expanded(s: Seq<char>)
    ensures
        !expand_tabs(s).contains('\t'),
        expand_tabs(s).len() == s.len() + 3 * s.filter(|c: char| c == '\t').len(),
        !s.contains('\t') ==> expand_tabs(s) == s,
    decreases s.len(),
{
    reveal(Seq::filter);
    if s.len() > 0 {
        let init = s.drop_last();
        lemma_tabs_expanded(init);
        let tail = if s.last() == '\t' {
            seq![' ', ' ', ' ', ' ']
        } else {
            seq![s.last()]
        };
        let e = expand_tabs(s);
        assert(e == expand_tabs(init) + tail);
        assert(!e.contains('\t')) by {
            if e.contains('\t') {
                let k = choose|k: int| 0 <= k < e.len() && e[k] == '\t';
                if k < expand_tabs(init).len() {
                    assert(expand_tabs(init)[k] == '\t');
                } else {
                    assert(tail[k - expand_tabs(init).len()] == '\t');
                }
            }
        }
        if !s.contains('\t') {
            assert(!init.contains('\t')) by {
                if init.contains('\t') {
                    let k = choose|k: int| 0 <= k < init.len() && init[k] == '\t';
                    assert(s[k] == '\t');
                }
            }
            assert(s[s.len() - 1] != '\t');
            assert(e =~= s);
        }
    }
}

} // verus!
