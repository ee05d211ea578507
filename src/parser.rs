//! Comment stripping and the line-by-line assembly of a document.
use vstd::prelude::*;

use crate::document::{open_section, set_value, DocModel, Ini};
use crate::text::{
    chars_of, find_first_in, find_first_of, join_lines, lemma_join_lines_push, push_char,
    string_of, text_lines, trim, trim_range,
};

verus! {

/// A line with surrounding whitespace removed, cut before its first `;` or
/// `#`, whichever comes first.
pub open spec fn strip_line(l: Seq<char>) -> Seq<char> {
    let t = trim(l);
    t.take(find_first_of(t, ';', '#'))
}

/// Each line stripped of its comment.
pub open spec fn strip_lines(ls: Seq<Seq<char>>) -> Seq<Seq<char>> {
    ls.map_values(|l: Seq<char>| strip_line(l))
}

/// The text with each line stripped of its comment and ended by a newline.
pub open spec fn strip_text(s: Seq<char>) -> Seq<char> {
    join_lines(strip_lines(text_lines(s)))
}

/// What a line is, once trimmed.
pub enum LineKind {
    /// Nothing but whitespace.
    Blank,
    /// `[name]`, holding the trimmed name.
    Header(Seq<char>),
    /// `key = value`, split at the first `=`, both parts trimmed.
    Pair(Seq<char>, Seq<char>),
    /// Anything else: a line with no `=`.
    Malformed,
}

/// The kind of line `l`.
pub open spec fn classify(l: Seq<char>) -> LineKind {
    let t = trim(l);
    if t.len() == 0 {
        LineKind::Blank
    } else if t.len() >= 2 && t[0] == '[' && t.last() == ']' {
        LineKind::Header(trim(t.subrange(1, t.len() - 1)))
    } else {
        let e = find_first_of(t, '=', '=');
        if e < t.len() {
            LineKind::Pair(trim(t.take(e)), trim(t.subrange(e + 1, t.len() as int)))
        } else {
            LineKind::Malformed
        }
    }
}

/// The parser's state between lines: the current section, if a header was
/// seen, and the document so far.
pub type ParseState = (Option<Seq<char>>, DocModel);

/// A state, or the 1-based number and trimmed text of the line that failed.
pub type ParseOutcome = Result<ParseState, (int, Seq<char>)>;

/// One step of the parser: line `l`, numbered `no`, applied to `st`.
pub open spec fn apply_line(st: ParseState, l: Seq<char>, no: int) -> ParseOutcome {
    match classify(l) {
        LineKind::Blank => Ok(st),
        LineKind::Header(n) => Ok((Some(n), open_section(st.1, n))),
        LineKind::Pair(k, v) => match st.0 {
            Some(n) => Ok((st.0, set_value(st.1, n, k, v))),
            None => Err((no, trim(l))),
        },
        LineKind::Malformed => Err((no, trim(l))),
    }
}

/// The lines `ls`, the first one numbered `first`, applied in order from
/// `start`; the first failure stops the run.
pub open spec fn run_from(start: ParseOutcome, ls: Seq<Seq<char>>, first: int) -> ParseOutcome
    decreases ls.len(),
{
    if ls.len() == 0 {
        start
    } else {
        match run_from(start, ls.drop_last(), first) {
            Ok(st) => apply_line(st, ls.last(), first + ls.len() - 1),
            Err(e) => Err(e),
        }
    }
}

/// The lines `ls` applied from the start: no current section, no sections.
pub open spec fn run_lines(ls: Seq<Seq<char>>) -> ParseOutcome {
    run_from(Ok((None, Seq::empty())), ls, 1)
}

/// The document that an outcome holds, or its failure.
pub open spec fn outcome_doc(o: ParseOutcome) -> Result<DocModel, (int, Seq<char>)> {
    match o {
        Ok(st) => Ok(st.1),
        Err(e) => Err(e),
    }
}

/// The result of parsing `s`: the document, or the number and text of the
/// first malformed line.
pub open spec fn parse_text(s: Seq<char>) -> Result<DocModel, (int, Seq<char>)> {
    outcome_doc(run_lines(text_lines(strip_text(s))))
}

/// Why a text is not an INI document.
#[derive(Debug, Clone, PartialEq, Eq)]
pub enum ParseError {
    /// A line that is neither blank, a header nor `key = value`, or a
    /// `key = value` line before any header: its 1-based number and its
    /// trimmed text, comment removed.
    MalformedLine { line_number: usize, text: String },
}

/// `r` is the executable form of the result `o`.
pub open spec fn outcome_is(r: Result<Ini, ParseError>, o: Result<DocModel, (int, Seq<char>)>) -> bool {
    match o {
        Ok(d) => match r {
            Ok(doc) => doc@ == d && doc.wf(),
            Err(_) => false,
        },
        Err((n, t)) => match r {
            Ok(_) => false,
            Err(ParseError::MalformedLine { line_number, text }) => line_number == n && text@ == t,
        },
    }
}

/// Running two pieces in turn is running their concatenation.
pub proof fn lemma_run_concat(start: ParseOutcome, a: Seq<Seq<char>>, b: Seq<Seq<char>>, first: int)
    ensures
        run_from(start, a + b, first) == run_from(run_from(start, a, first), b, first + a.len()),
    decreases b.len(),
{
    if b.len() == 0 {
        assert(a + b =~= a);
    } else {
        assert((a + b).drop_last() =~= a + b.drop_last());
        assert((a + b).last() == b.last());
        lemma_run_concat(start, a, b.drop_last(), first);
    }
}

/// A failure is kept by every later line.
pub proof fn lemma_run_failed(e: (int, Seq<char>), ls: Seq<Seq<char>>, first: int)
    ensures
        run_from(Err(e), ls, first) == Err::<ParseState, (int, Seq<char>)>(e),
    decreases ls.len(),
{
    if ls.len() > 0 {
        lemma_run_failed(e, ls.drop_last(), first);
    }
}

/// The name of the section at index `cur`, if any.
spec fn current_name(cur: Option<usize>, d: DocModel) -> Option<Seq<char>> {
    match cur {
        Some(i) => Some(d[i as int].0),
        None => None,
    }
}

/// Appends `v[lo..hi]` to `out`.
fn push_range(out: &mut String, v: &Vec<char>, lo: usize, hi: usize)
    requires
        lo <= hi <= v.len(),
    ensures
        final(out)@ == old(out)@ + v@.subrange(lo as int, hi as int),
{
    let mut i: usize = lo;
    while i < hi
        invariant
            lo <= i <= hi <= v.len(),
            out@ == old(out)@ + v@.subrange(lo as int, i as int),
        decreases hi - i,
    {
        push_char(out, v[i]);
        assert(old(out)@ + v@.subrange(lo as int, i + 1) =~= old(out)@ + v@.subrange(
            lo as int,
            i as int,
        ) + seq![v@[i as int]]);
        i = i + 1;
    }
}

/// The end of the line that starts at `start`, and where the next line
/// starts; the line's text and the lines after it are `text_lines` of what
/// remains.
fn next_line(v: &Vec<char>, start: usize) -> (r: (usize, usize))
    requires
        start < v.len(),
    ensures
        start <= r.0 <= r.1 <= v.len(),
        start < r.1,
        text_lines(v@.subrange(start as int, v.len() as int)) == seq![
            v@.subrange(start as int, r.0 as int),
        ] + text_lines(v@.subrange(r.1 as int, v.len() as int)),
{
    let len = v.len();
    let e = find_first_in(v, start, len, '\n', '\n');
    let ghost rest = v@.subrange(start as int, len as int);
    assert(rest.subrange(0, e - start) =~= v@.subrange(start as int, e as int));
    if e < len {
        assert(rest.subrange(e - start + 1, rest.len() as int) =~= v@.subrange(e + 1, len as int));
        (e, e + 1)
    } else {
        assert(v@.subrange(len as int, len as int) =~= Seq::<char>::empty());
        assert(rest.subrange(0, e - start) =~= rest);
        (e, len)
    }
}

/// `src` with each line trimmed and cut before its first `;` or `#`, each
/// line ended by a newline.
pub fn strip_comments(src: &str) -> (r: String)
    ensures
        r@ == strip_text(src@),
{
    let v = chars_of(src);
    let len = v.len();
    let mut out = String::new();
    let mut start: usize = 0;
    let ghost mut done: Seq<Seq<char>> = Seq::empty();
    assert(v@.subrange(0, len as int) =~= v@);
    assert(done + text_lines(v@) =~= text_lines(v@));
    assert(join_lines(strip_lines(done)) =~= Seq::<char>::empty());
    while start < len
        invariant
            len == v.len(),
            v@ == src@,
            start <= len,
            text_lines(v@) == done + text_lines(v@.subrange(start as int, len as int)),
            out@ == join_lines(strip_lines(done)),
        decreases len - start,
    {
        let (e, next) = next_line(&v, start);
        let ghost line = v@.subrange(start as int, e as int);
        let (a, b) = trim_range(&v, start, e);
        let c = find_first_in(&v, a, b, ';', '#');
        push_range(&mut out, &v, a, c);
        push_char(&mut out, '\n');
        proof {
            assert(v@.subrange(a as int, b as int).take(c - a) =~= v@.subrange(a as int, c as int));
            assert(strip_line(line) == v@.subrange(a as int, c as int));
            assert(strip_lines(done.push(line)) =~= strip_lines(done).push(strip_line(line)));
            lemma_join_lines_push(strip_lines(done), strip_line(line));
            assert(done + (seq![line] + text_lines(v@.subrange(next as int, len as int)))
                =~= done.push(line) + text_lines(v@.subrange(next as int, len as int)));
            done = done.push(line);
        }
        start = next;
    }
    proof {
        assert(v@.subrange(start as int, len as int) =~= Seq::<char>::empty());
        assert(done + Seq::<Seq<char>>::empty() =~= done);
    }
    out
}

/// The failure of the line numbered `line_no + 1`, whose trimmed text is
/// `v[a..b]`.
fn malformed(v: &Vec<char>, line_no: usize, a: usize, b: usize) -> (r: ParseError)
    requires
        a <= b <= v.len(),
        line_no < usize::MAX,
    ensures
        r == (ParseError::MalformedLine { line_number: (line_no + 1) as usize, text: r->text }),
        r->text@ == v@.subrange(a as int, b as int),
{
    ParseError::MalformedLine { line_number: line_no + 1, text: string_of(v, a, b) }
}

/// Assembles a document from text whose comments are already stripped.
fn assemble(v: &Vec<char>) -> (r: Result<Ini, ParseError>)
    ensures
        outcome_is(r, outcome_doc(run_lines(text_lines(v@)))),
{
    let len = v.len();
    let mut doc = Ini::new();
    let mut cur: Option<usize> = None;
    let mut start: usize = 0;
    let mut line_no: usize = 0;
    let ghost mut done: Seq<Seq<char>> = Seq::empty();
    assert(v@.subrange(0, len as int) =~= v@);
    assert(done + text_lines(v@) =~= text_lines(v@));
    while start < len
        invariant
            len == v.len(),
            start <= len,
            line_no == done.len(),
            line_no <= start,
            text_lines(v@) == done + text_lines(v@.subrange(start as int, len as int)),
            doc.wf(),
            cur matches Some(i) ==> i < doc@.len(),
            run_lines(done) == Ok::<ParseState, (int, Seq<char>)>((current_name(cur, doc@), doc@)),
        decreases len - start,
    {
        let (e, next) = next_line(&v, start);
        let ghost line = v@.subrange(start as int, e as int);
        let ghost rest = text_lines(v@.subrange(next as int, len as int));
        let ghost st: ParseState = (current_name(cur, doc@), doc@);
        let (a, b) = trim_range(&v, start, e);
        let ghost t = v@.subrange(a as int, b as int);
        proof {
            assert(done.push(line).drop_last() =~= done);
            assert(run_lines(done.push(line)) == apply_line(st, line, line_no + 1));
            assert(done + (seq![line] + rest) =~= done.push(line) + rest);
            lemma_run_concat(Ok((None, Seq::empty())), done.push(line), rest, 1);
        }
        if a == b {
            // blank line
        } else if b - a >= 2 && v[a] == '[' && v[b - 1] == ']' {
            let (c, d) = trim_range(&v, a + 1, b - 1);
            assert(t.subrange(1, t.len() - 1) =~= v@.subrange(a + 1, b - 1));
            let name = string_of(&v, c, d);
            let idx = doc.open_section(name);
            cur = Some(idx);
        } else {
            let k = find_first_in(&v, a, b, '=', '=');
            if k == b {
                let err = malformed(&v, line_no, a, b);
                proof {
                    lemma_run_failed((line_no + 1, t), rest, line_no + 2);
                }
                return Err(err);
            }
            match cur {
                None => {
                    let err = malformed(&v, line_no, a, b);
                    proof {
                        lemma_run_failed((line_no + 1, t), rest, line_no + 2);
                    }
                    return Err(err);
                },
                Some(i) => {
                    assert(t.take(k - a) =~= v@.subrange(a as int, k as int));
                    assert(t.subrange(k - a + 1, t.len() as int) =~= v@.subrange(k + 1, b as int));
                    let (c1, d1) = trim_range(&v, a, k);
                    let (c2, d2) = trim_range(&v, k + 1, b);
                    let key = string_of(&v, c1, d1);
                    let value = string_of(&v, c2, d2);
                    doc.insert_at(i, key, value);
                    assert(doc@[i as int].0 == st.1[i as int].0);
                },
            }
        }
        proof {
            done = done.push(line);
        }
        line_no = line_no + 1;
        start = next;
    }
    proof {
        assert(v@.subrange(start as int, len as int) =~= Seq::<char>::empty());
        assert(done + Seq::<Seq<char>>::empty() =~= done);
    }
    Ok(doc)
}

/// Holds the text to parse.
#[derive(Debug, Clone)]
pub struct IniParser {
    stream: String,
}

impl View for IniParser {
    type V = Seq<char>;

    closed spec fn view(&self) -> Seq<char> {
        self.stream@
    }
}

impl IniParser {
    /// A parser over `bytes`.
    pub fn new(bytes: String) -> (r: IniParser)
        ensures
            r@ == bytes@,
    {
        IniParser { stream: bytes }
    }

    /// The text held.
    pub fn as_str(&self) -> (r: &str)
        ensures
            r@ == self@,
    {
        self.stream.as_str()
    }

    /// Strips the comment from each line of the text held.
    pub fn remove_comments(&mut self)
        ensures
            final(self)@ == strip_text(old(self)@),
    {
        self.stream = strip_comments(self.stream.as_str());
    }

    /// Strips comments, then parses the text held into a document, or
    /// reports the first malformed line.
    pub fn parse(&mut self) -> (r: Result<Ini, ParseError>)
        ensures
            final(self)@ == strip_text(old(self)@),
            outcome_is(r, parse_text(old(self)@)),
    {
        self.remove_comments();
        let v = chars_of(self.stream.as_str());
        assemble(&v)
    }
}

/// Parses INI text into a document, or reports the first malformed line.
pub fn parse_ini(src: String) -> (r: Result<Ini, ParseError>)
    ensures
        outcome_is(r, parse_text(src@)),
{
    let mut parser = IniParser::new(src);
    parser.parse()
}

} // verus!
