//! Character-level helpers shared by the parsers and renderers: line splitting,
//! whitespace trimming, comment stripping and the `=>` separator.
use vstd::prelude::*;

verus! {

/// `String::push` from std: appends one character at the end.
#[verifier::external_body]
pub(crate) fn push_char(s: &mut String, c: char)
    ensures
        final(s)@ == old(s)@.push(c),
{
    s.push(c)
}

// ---------------------------------------------------------------------------
// Models
// ---------------------------------------------------------------------------

/// A character with the Unicode `White_Space` property, the set that
/// `char::is_whitespace` (and so `str::trim`) uses.
pub open spec fn is_space(c: char) -> bool {
    let u = c as u32;
    ||| 0x09 <= u <= 0x0d
    ||| u == 0x20
    ||| u == 0x85
    ||| u == 0xa0
    ||| u == 0x1680
    ||| 0x2000 <= u <= 0x200a
    ||| u == 0x2028
    ||| u == 0x2029
    ||| u == 0x202f
    ||| u == 0x205f
    ||| u == 0x3000
}

/// `s` without its leading whitespace.
pub open spec fn trim_start(s: Seq<char>) -> Seq<char>
    decreases s.len(),
{
    if s.len() > 0 && is_space(s[0]) {
        trim_start(s.drop_first())
    } else {
        s
    }
}

/// `s` without its trailing whitespace.
pub open spec fn trim_end(s: Seq<char>) -> Seq<char>
    decreases s.len(),
{
    if s.len() > 0 && is_space(s.last()) {
        trim_end(s.drop_last())
    } else {
        s
    }
}

/// `s` without leading and trailing whitespace (`str::trim`).
pub open spec fn trim(s: Seq<char>) -> Seq<char> {
    trim_end(trim_start(s))
}

/// `s` without any trailing copies of `c` (`str::trim_end_matches` with a char).
pub open spec fn trim_end_char(s: Seq<char>, c: char) -> Seq<char>
    decreases s.len(),
{
    if s.len() > 0 && s.last() == c {
        trim_end_char(s.drop_last(), c)
    } else {
        s
    }
}

/// The part of `s` before the first `c`, or all of `s` when it holds no `c`.
pub open spec fn before_char(s: Seq<char>, c: char) -> Seq<char>
    decreases s.len(),
{
    if s.len() == 0 {
        s
    } else if s[0] == c {
        Seq::empty()
    } else {
        seq![s[0]] + before_char(s.drop_first(), c)
    }
}

/// Splitting by `sep`, read from the left: the pieces already closed by a
/// separator, and the piece still open at the end.
pub open spec fn split_acc(s: Seq<char>, sep: char) -> (Seq<Seq<char>>, Seq<char>)
    decreases s.len(),
{
    if s.len() == 0 {
        (Seq::empty(), Seq::empty())
    } else {
        let (done, open) = split_acc(s.drop_last(), sep);
        if s.last() == sep {
            (done.push(open), Seq::empty())
        } else {
            (done, open.push(s.last()))
        }
    }
}

/// The pieces of `s` between occurrences of `sep` (`str::split` with a char):
/// never empty, and one more piece than `s` holds separators.
pub open spec fn split_on(s: Seq<char>, sep: char) -> Seq<Seq<char>> {
    split_acc(s, sep).0.push(split_acc(s, sep).1)
}

/// The lines joined, each followed by a newline.
pub open spec fn join_lines(lines: Seq<Seq<char>>) -> Seq<char>
    decreases lines.len(),
{
    if lines.len() == 0 {
        Seq::empty()
    } else {
        join_lines(lines.drop_last()) + lines.last() + seq!['\n']
    }
}

/// `s` holds the two-character separator `=>` starting at `i`.
pub open spec fn arrow_at(s: Seq<char>, i: int) -> bool {
    0 <= i && i + 1 < s.len() && s[i] == '=' && s[i + 1] == '>'
}

/// The first position at or after `from` where `=>` starts, or -1.
pub open spec fn first_arrow(s: Seq<char>, from: int) -> int
    decreases s.len() - from,
{
    if from < 0 || from + 1 >= s.len() {
        -1
    } else if arrow_at(s, from) {
        from
    } else {
        first_arrow(s, from + 1)
    }
}

/// `s` holds no `=>`.
pub open spec fn no_arrow(s: Seq<char>) -> bool {
    forall|i: int| !arrow_at(s, i)
}

/// The two trimmed sides of `line` when `=>` splits it into exactly two pieces.
pub open spec fn arrow_pair(line: Seq<char>) -> Option<(Seq<char>, Seq<char>)> {
    let i = first_arrow(line, 0);
    if i < 0 || first_arrow(line, i + 2) >= 0 {
        None
    } else {
        Some((trim(line.take(i)), trim(line.skip(i + 2))))
    }
}

/// The name a section header line (one starting with `[`) opens: the rest of
/// the line without its trailing `]`s.
pub open spec fn header_name(line: Seq<char>) -> Seq<char> {
    trim_end_char(line.drop_first(), ']')
}

/// A line that opens a section.
pub open spec fn is_header(line: Seq<char>) -> bool {
    line.len() > 0 && line[0] == '['
}

/// The section open after `lines`: the one named by the last header among
/// them, `start` before any.
pub open spec fn open_section(lines: Seq<Seq<char>>, start: Seq<char>) -> Seq<char>
    decreases lines.len(),
{
    if lines.len() == 0 {
        start
    } else if is_header(lines.last()) {
        header_name(lines.last())
    } else {
        open_section(lines.drop_last(), start)
    }
}

/// The content lines of section `section`, in order: every line that is
/// neither empty nor a header and stands after a header that opens
/// `section`, with no other header between (or before any header, when
/// `section` is `start`).
pub open spec fn section_lines(lines: Seq<Seq<char>>, start: Seq<char>, section: Seq<char>) -> Seq<
    Seq<char>,
>
    decreases lines.len(),
{
    if lines.len() == 0 {
        Seq::empty()
    } else {
        let front = section_lines(lines.drop_last(), start, section);
        let l = lines.last();
        if l.len() > 0 && !is_header(l) && open_section(lines.drop_last(), start) == section {
            front.push(l)
        } else {
            front
        }
    }
}

/// The character sequence of an optional text.
pub open spec fn opt_str_view(o: Option<&str>) -> Option<Seq<char>> {
    match o {
        Some(s) => Some(s@),
        None => None,
    }
}

/// The character sequences of a list of strings.
pub open spec fn strings_view(v: Seq<String>) -> Seq<Seq<char>> {
    v.map_values(|s: String| s@)
}

// ---------------------------------------------------------------------------
// Lemmas on the models
// ---------------------------------------------------------------------------

/// Reading a piece that holds no separator extends the open piece.
pub proof fn lemma_split_acc_append(s: Seq<char>, u: Seq<char>, sep: char)
    requires
        !u.contains(sep),
    ensures
        split_acc(s + u, sep) == (split_acc(s, sep).0, split_acc(s, sep).1 + u),
    decreases u.len(),
{
    if u.len() == 0 {
        assert(s + u =~= s);
        assert(split_acc(s, sep).1 + u =~= split_acc(s, sep).1);
    } else {
        let v = u.drop_last();
        assert(!v.contains(sep)) by {
            if v.contains(sep) {
                let k = choose|k: int| 0 <= k < v.len() && v[k] == sep;
                assert(u[k] == sep);
            }
        }
        lemma_split_acc_append(s, v, sep);
        assert((s + u).drop_last() =~= s + v);
        assert((s + u).last() == u.last());
        assert(u.last() != sep) by {
            assert(u[u.len() - 1] == u.last());
        }
        assert((split_acc(s, sep).1 + v).push(u.last()) =~= split_acc(s, sep).1 + u);
    }
}

/// Splitting gives one piece more than the text has separators.
pub proof fn lemma_split_count(s: Seq<char>, sep: char)
    ensures
        split_on(s, sep).len() == s.filter(|c: char| c == sep).len() + 1,
    decreases s.len(),
{
    reveal(Seq::filter);
    if s.len() > 0 {
        lemma_split_count(s.drop_last(), sep);
    }
}

/// Splitting joined lines gives the lines back, with the empty piece after the
/// final newline.
pub proof fn lemma_split_join(lines: Seq<Seq<char>>)
    requires
        forall|i: int| 0 <= i < lines.len() ==> !(#[trigger] lines[i]).contains('\n'),
    ensures
        split_acc(join_lines(lines), '\n') == (lines, Seq::<char>::empty()),
        split_on(join_lines(lines), '\n') == lines.push(Seq::<char>::empty()),
    decreases lines.len(),
{
    if lines.len() == 0 {
        assert(join_lines(lines) =~= Seq::<char>::empty());
        assert(lines =~= Seq::<Seq<char>>::empty());
    } else {
        let init = lines.drop_last();
        let l = lines.last();
        assert forall|i: int| 0 <= i < init.len() implies !(#[trigger] init[i]).contains('\n') by {
            assert(init[i] == lines[i]);
        }
        lemma_split_join(init);
        assert(!l.contains('\n')) by {
            assert(lines[lines.len() - 1] == l);
        }
        lemma_split_acc_append(join_lines(init), l, '\n');
        let t = join_lines(init) + l;
        assert(join_lines(lines) == t + seq!['\n']);
        assert((t + seq!['\n']).drop_last() =~= t);
        assert((t + seq!['\n']).last() == '\n');
        assert(Seq::<char>::empty() + l =~= l);
        assert(init.push(l) =~= lines);
    }
}

/// A sequence with no whitespace at either end is its own trim.
pub proof fn lemma_trim_unchanged(s: Seq<char>)
    requires
        s.len() > 0 ==> !is_space(s[0]) && !is_space(s.last()),
    ensures
        trim(s) == s,
{
}

/// `before_char` is never longer than the text.
pub proof fn lemma_before_char_len(s: Seq<char>, c: char)
    ensures
        before_char(s, c).len() <= s.len(),
    decreases s.len(),
{
    if s.len() > 0 {
        lemma_before_char_len(s.drop_first(), c);
    }
}

/// `before_char` is the prefix up to the first occurrence.
pub proof fn lemma_before_char(s: Seq<char>, c: char, k: int)
    requires
        0 <= k <= s.len(),
        forall|j: int| 0 <= j < k ==> s[j] != c,
        k < s.len() ==> s[k] == c,
    ensures
        before_char(s, c) == s.take(k),
    decreases s.len(),
{
    if s.len() == 0 {
        assert(s.take(k) =~= s);
    } else if k == 0 {
        assert(s.take(k) =~= Seq::<char>::empty());
    } else {
        let t = s.drop_first();
        assert forall|j: int| 0 <= j < k - 1 implies t[j] != c by {
            assert(t[j] == s[j + 1]);
        }
        lemma_before_char(t, c, k - 1);
        assert(seq![s[0]] + t.take(k - 1) =~= s.take(k));
    }
}

/// `first_arrow` finds the first `=>` at or after `from`.
pub proof fn lemma_first_arrow(s: Seq<char>, from: int, k: int)
    requires
        0 <= from <= k,
        forall|j: int| from <= j < k ==> !arrow_at(s, j),
        arrow_at(s, k) || k + 1 >= s.len(),
    ensures
        first_arrow(s, from) == (if arrow_at(s, k) { k } else { -1 }),
    decreases k - from,
{
    if from + 1 >= s.len() {
    } else if arrow_at(s, from) {
    } else {
        lemma_first_arrow(s, from + 1, k);
    }
}

// ---------------------------------------------------------------------------
// Executable helpers
// ---------------------------------------------------------------------------

/// The characters of `s`, in order.
pub fn chars_of(s: &str) -> (r: Vec<char>)
    ensures
        r@ == s@,
{
    let mut r: Vec<char> = Vec::new();
    for c in it: s.chars()
        invariant
            r@ == it.seq().take(it.index() as int),
            it.seq() == s@,
    {
        r.push(c);
    }
    r
}

/// A `String` holding the characters `cs[lo..hi]`.
pub fn string_of_range(cs: &Vec<char>, lo: usize, hi: usize) -> (s: String)
    requires
        lo <= hi <= cs.len(),
    ensures
        s@ == cs@.subrange(lo as int, hi as int),
{
    let mut s = String::new();
    let mut i: usize = lo;
    while i < hi
        invariant
            lo <= i <= hi <= cs.len(),
            s@ == cs@.subrange(lo as int, i as int),
        decreases hi - i,
    {
        push_char(&mut s, cs[i]);
        assert(cs@.subrange(lo as int, i + 1) == cs@.subrange(lo as int, i as int).push(
            cs@[i as int],
        ));
        i = i + 1;
    }
    s
}

/// A `String` holding exactly the characters of `cs`.
pub fn string_of(cs: &Vec<char>) -> (s: String)
    ensures
        s@ == cs@,
{
    let s = string_of_range(cs, 0, cs.len());
    assert(cs@.subrange(0, cs.len() as int) == cs@);
    s
}

/// Whether `c` is whitespace (`char::is_whitespace`).
pub fn is_space_char(c: char) -> (b: bool)
    ensures
        b == is_space(c),
{
    let u = c as u32;
    (0x09 <= u && u <= 0x0d) || u == 0x20 || u == 0x85 || u == 0xa0 || u == 0x1680 || (0x2000
        <= u && u <= 0x200a) || u == 0x2028 || u == 0x2029 || u == 0x202f || u == 0x205f || u
        == 0x3000
}

/// The bounds of `cs[lo..hi]` once whitespace is trimmed from both ends.
pub fn trim_bounds(cs: &Vec<char>, lo: usize, hi: usize) -> (r: (usize, usize))
    requires
        lo <= hi <= cs.len(),
    ensures
        lo <= r.0 <= r.1 <= hi,
        cs@.subrange(r.0 as int, r.1 as int) == trim(cs@.subrange(lo as int, hi as int)),
{
    let mut i = lo;
    while i < hi && is_space_char(cs[i])
        invariant
            lo <= i <= hi <= cs.len(),
            trim_start(cs@.subrange(i as int, hi as int)) == trim_start(
                cs@.subrange(lo as int, hi as int),
            ),
        decreases hi - i,
    {
        assert(cs@.subrange(i as int, hi as int).drop_first() =~= cs@.subrange(
            i + 1,
            hi as int,
        ));
        i = i + 1;
    }
    assert(trim_start(cs@.subrange(i as int, hi as int)) == cs@.subrange(i as int, hi as int));
    let mut j = hi;
    while j > i && is_space_char(cs[j - 1])
        invariant
            lo <= i <= j <= hi <= cs.len(),
            trim_end(cs@.subrange(i as int, j as int)) == trim(cs@.subrange(lo as int, hi as int)),
        decreases j - i,
    {
        assert(cs@.subrange(i as int, j as int).drop_last() =~= cs@.subrange(
            i as int,
            j - 1,
        ));
        j = j - 1;
    }
    (i, j)
}

/// `cs[lo..hi]` with whitespace trimmed from both ends, as a `String`.
pub fn trimmed(cs: &Vec<char>, lo: usize, hi: usize) -> (s: String)
    requires
        lo <= hi <= cs.len(),
    ensures
        s@ == trim(cs@.subrange(lo as int, hi as int)),
{
    let (a, b) = trim_bounds(cs, lo, hi);
    string_of_range(cs, a, b)
}

/// The end of `cs[lo..hi]` once trailing copies of `c` are dropped.
pub fn trim_end_char_bound(cs: &Vec<char>, lo: usize, hi: usize, c: char) -> (r: usize)
    requires
        lo <= hi <= cs.len(),
    ensures
        lo <= r <= hi,
        cs@.subrange(lo as int, r as int) == trim_end_char(cs@.subrange(lo as int, hi as int), c),
{
    let mut j = hi;
    while j > lo && cs[j - 1] == c
        invariant
            lo <= j <= hi <= cs.len(),
            trim_end_char(cs@.subrange(lo as int, j as int), c) == trim_end_char(
                cs@.subrange(lo as int, hi as int),
                c,
            ),
        decreases j - lo,
    {
        assert(cs@.subrange(lo as int, j as int).drop_last() =~= cs@.subrange(
            lo as int,
            j - 1,
        ));
        j = j - 1;
    }
    j
}

/// The position of the first `c` in `cs[lo..hi]`, or `hi` when there is none.
pub fn find_char(cs: &Vec<char>, lo: usize, hi: usize, c: char) -> (k: usize)
    requires
        lo <= hi <= cs.len(),
    ensures
        lo <= k <= hi,
        forall|j: int| lo <= j < k ==> cs@[j] != c,
        k < hi ==> cs@[k as int] == c,
        cs@.subrange(lo as int, k as int) == before_char(cs@.subrange(lo as int, hi as int), c),
{
    let mut k = lo;
    while k < hi && cs[k] != c
        invariant
            lo <= k <= hi <= cs.len(),
            forall|j: int| lo <= j < k ==> cs@[j] != c,
        decreases hi - k,
    {
        k = k + 1;
    }
    let ghost s = cs@.subrange(lo as int, hi as int);
    proof {
        lemma_before_char(s, c, k - lo);
        assert(s.take(k - lo) =~= cs@.subrange(lo as int, k as int));
    }
    k
}

/// The first position at or after `from` where `cs` holds `=>`, if any.
pub fn find_arrow(cs: &Vec<char>, from: usize) -> (r: Option<usize>)
    ensures
        from <= cs.len() ==> (match r {
            Some(k) => first_arrow(cs@, from as int) == k as int,
            None => first_arrow(cs@, from as int) == -1,
        }),
        r matches Some(k) ==> from <= k && k + 2 <= cs.len(),
{
    let mut k = from;
    while k < cs.len() && !(k + 1 < cs.len() && cs[k] == '=' && cs[k + 1] == '>')
        invariant
            from <= k,
            forall|j: int| from <= j < k ==> !arrow_at(cs@, j),
        decreases cs.len() - k,
    {
        k = k + 1;
    }
    if k < cs.len() {
        proof {
            lemma_first_arrow(cs@, from as int, k as int);
        }
        Some(k)
    } else {
        proof {
            if from <= cs.len() {
                if from + 1 >= cs.len() {
                } else {
                    let last = (cs.len() - 1) as int;
                    assert(!arrow_at(cs@, last));
                    lemma_first_arrow(cs@, from as int, last);
                }
            }
        }
        None
    }
}

/// The characters `cs[lo..hi]` as a vector of their own.
pub fn sub_chars(cs: &Vec<char>, lo: usize, hi: usize) -> (r: Vec<char>)
    requires
        lo <= hi <= cs.len(),
    ensures
        r@ == cs@.subrange(lo as int, hi as int),
{
    let mut r: Vec<char> = Vec::new();
    let mut i = lo;
    while i < hi
        invariant
            lo <= i <= hi <= cs.len(),
            r@ == cs@.subrange(lo as int, i as int),
        decreases hi - i,
    {
        r.push(cs[i]);
        assert(cs@.subrange(lo as int, i + 1) == cs@.subrange(lo as int, i as int).push(
            cs@[i as int],
        ));
        i = i + 1;
    }
    r
}

/// A fresh list holding the same strings.
pub fn copy_strings(v: &Vec<String>) -> (r: Vec<String>)
    ensures
        strings_view(r@) == strings_view(v@),
{
    let mut r: Vec<String> = Vec::new();
    let mut i: usize = 0;
    while i < v.len()
        invariant
            i <= v.len(),
            strings_view(r@) == strings_view(v@).take(i as int),
        decreases v.len() - i,
    {
        r.push(v[i].clone());
        assert(strings_view(v@).take(i + 1) =~= strings_view(v@).take(i as int).push(v@[i as int]@));
        assert(strings_view(r@) =~= strings_view(v@).take(i as int).push(v@[i as int]@));
        i = i + 1;
    }
    assert(strings_view(v@).take(v.len() as int) =~= strings_view(v@));
    r
}

/// Whether the characters `cs` spell out exactly `word`.
pub fn chars_are(cs: &Vec<char>, word: &str) -> (b: bool)
    ensures
        b == (cs@ == word@),
{
    let w = chars_of(word);
    let b = range_is(cs, 0, cs.len(), &w);
    assert(cs@.subrange(0, cs.len() as int) == cs@);
    b
}

/// The pieces of `s` between occurrences of `sep`.
pub fn split_text(s: &str, sep: char) -> (pieces: Vec<String>)
    ensures
        strings_view(pieces@) == split_on(s@, sep),
{
    let cs = chars_of(s);
    let mut pieces: Vec<String> = Vec::new();
    let mut open: Vec<char> = Vec::new();
    let mut i: usize = 0;
    assert(strings_view(pieces@) =~= Seq::<Seq<char>>::empty());
    while i < cs.len()
        invariant
            i <= cs.len(),
            cs@ == s@,
            strings_view(pieces@) == split_acc(cs@.take(i as int), sep).0,
            open@ == split_acc(cs@.take(i as int), sep).1,
        decreases cs.len() - i,
    {
        assert(cs@.take(i + 1).drop_last() =~= cs@.take(i as int));
        assert(cs@.take(i + 1).last() == cs@[i as int]);
        if cs[i] == sep {
            let ghost before = pieces@;
            pieces.push(string_of(&open));
            assert(strings_view(pieces@) =~= strings_view(before).push(open@));
            open = Vec::new();
        } else {
            open.push(cs[i]);
        }
        i = i + 1;
    }
    assert(cs@.take(cs.len() as int) =~= cs@);
    let ghost before = pieces@;
    pieces.push(string_of(&open));
    assert(strings_view(pieces@) =~= strings_view(before).push(open@));
    pieces
}

/// Whether two texts are the same characters.
pub fn same_text(a: &str, b: &str) -> (r: bool)
    ensures
        r == (a@ == b@),
{
    let cs = chars_of(a);
    chars_are(&cs, b)
}

/// Whether `cs[lo..hi]` spells out exactly `word`.
pub fn range_is(cs: &Vec<char>, lo: usize, hi: usize, word: &Vec<char>) -> (b: bool)
    requires
        lo <= hi <= cs.len(),
    ensures
        b == (cs@.subrange(lo as int, hi as int) == word@),
{
    if hi - lo != word.len() {
        return false;
    }
    let mut i: usize = 0;
    while i < word.len()
        invariant
            hi - lo == word.len(),
            lo <= hi <= cs.len(),
            i <= word.len(),
            forall|j: int| 0 <= j < i ==> cs@[lo + j] == word@[j],
        decreases word.len() - i,
    {
        if cs[lo + i] != word[i] {
            assert(cs@.subrange(lo as int, hi as int)[i as int] != word@[i as int]);
            return false;
        }
        i = i + 1;
    }
    assert(cs@.subrange(lo as int, hi as int) =~= word@);
    true
}

} // verus!
