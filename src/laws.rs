//! Laws that relate the parser, the comment stripper and the renderer.
use vstd::prelude::*;

use crate::document::{
    doc_wf, entry_line, has_name, header_line, names_unique, open_section, render_lines,
    render_text, section_lines, set_value, upsert, DocModel, EntriesModel, Ini,
};
use crate::parser::{
    classify, lemma_run_concat, lemma_run_failed, parse_text, run_from, run_lines, strip_line,
    strip_lines, strip_text, LineKind, ParseOutcome, ParseState,
};
use crate::text::{
    find_first_of, is_white, join_lines, lemma_find_first_of, lemma_find_first_of_bounds,
    lemma_text_lines_no_newline, lemma_text_lines_of_join, text_lines, trim, trim_end,
    trim_start,
};

verus! {

/// `x` has no whitespace at either end.
pub open spec fn no_outer_white(x: Seq<char>) -> bool {
    x.len() == 0 || (!is_white(x[0]) && !is_white(x.last()))
}

/// `x` can stand as a name or value in rendered text and be read back: it
/// holds none of `=`, `[`, `]`, `;`, `#` or a newline, and no whitespace at
/// either end.
pub open spec fn plain_text(x: Seq<char>) -> bool {
    &&& !x.contains('=')
    &&& !x.contains('[')
    &&& !x.contains(']')
    &&& !x.contains(';')
    &&& !x.contains('#')
    &&& !x.contains('\n')
    &&& no_outer_white(x)
}

/// Every section name and key is non-empty, and every name, key and value
/// is plain text.
pub open spec fn renderable(d: DocModel) -> bool {
    forall|i: int|
        0 <= i < d.len() ==> {
            &&& (#[trigger] d[i]).0.len() > 0
            &&& plain_text(d[i].0)
            &&& forall|j: int|
                0 <= j < d[i].1.len() ==> {
                    &&& (#[trigger] d[i].1[j]).0.len() > 0
                    &&& plain_text(d[i].1[j].0)
                    &&& plain_text(d[i].1[j].1)
                }
        }
}

/// Leading whitespace before a text that starts with none is all trimmed.
proof fn lemma_trim_start_after_white(w: Seq<char>, x: Seq<char>)
    requires
        forall|j: int| 0 <= j < w.len() ==> is_white(w[j]),
        x.len() == 0 || !is_white(x[0]),
    ensures
        trim_start(w + x) == x,
    decreases w.len(),
{
    if w.len() == 0 {
        assert(w + x =~= x);
    } else {
        assert((w + x).drop_first() =~= w.drop_first() + x);
        lemma_trim_start_after_white(w.drop_first(), x);
    }
}

/// Trailing whitespace after a text that ends with none is all trimmed.
proof fn lemma_trim_end_before_white(x: Seq<char>, w: Seq<char>)
    requires
        forall|j: int| 0 <= j < w.len() ==> is_white(w[j]),
        x.len() == 0 || !is_white(x.last()),
    ensures
        trim_end(x + w) == x,
    decreases w.len(),
{
    if w.len() == 0 {
        assert(x + w =~= x);
    } else {
        assert((x + w).drop_last() =~= x + w.drop_last());
        lemma_trim_end_before_white(x, w.drop_last());
    }
}

/// Trimming leaves a text with no outer whitespace unchanged.
proof fn lemma_trim_no_outer_white(x: Seq<char>)
    requires
        no_outer_white(x),
    ensures
        trim(x) == x,
{
}

/// No character of `x` is `c`.
proof fn lemma_not_contains(x: Seq<char>, c: char)
    requires
        !x.contains(c),
    ensures
        forall|j: int| 0 <= j < x.len() ==> x[j] != c,
{
    assert forall|j: int| 0 <= j < x.len() implies x[j] != c by {
        if x[j] == c {
            assert(x.contains(c));
        }
    }
}

/// No character of plain text is a separator, bracket, marker or newline.
proof fn lemma_plain_chars(x: Seq<char>)
    requires
        plain_text(x),
    ensures
        forall|j: int|
            0 <= j < x.len() ==> x[j] != '=' && x[j] != '[' && x[j] != ']' && x[j] != ';' && x[j]
                != '#' && x[j] != '\n',
{
    lemma_not_contains(x, '=');
    lemma_not_contains(x, '[');
    lemma_not_contains(x, ']');
    lemma_not_contains(x, ';');
    lemma_not_contains(x, '#');
    lemma_not_contains(x, '\n');
}

/// A header line of a plain name is kept whole by the stripper and read back
/// as that name.
proof fn lemma_header_line(n: Seq<char>)
    requires
        plain_text(n),
    ensures
        strip_line(header_line(n)) == header_line(n),
        !header_line(n).contains('\n'),
        classify(header_line(n)) == LineKind::Header(n),
{
    let h = header_line(n);
    lemma_plain_chars(n);
    assert(h[0] == '[');
    assert(h.last() == ']');
    lemma_trim_no_outer_white(h);
    assert forall|j: int| 0 <= j < h.len() implies h[j] != ';' && h[j] != '#' && h[j] != '\n' by {
        if 0 < j < h.len() - 1 {
            assert(h[j] == n[j - 1]);
        }
    }
    lemma_find_first_of(h, ';', '#', h.len() as int);
    assert(h.take(h.len() as int) =~= h);
    assert(!h.contains('\n'));
    assert(h.subrange(1, h.len() - 1) =~= n);
    lemma_trim_no_outer_white(n);
}

/// A `key = value` line of a plain key and value is read back as that pair.
proof fn lemma_entry_line(k: Seq<char>, v: Seq<char>)
    requires
        k.len() > 0,
        plain_text(k),
        plain_text(v),
    ensures
        !entry_line(k, v).contains('\n'),
        !strip_line(entry_line(k, v)).contains('\n'),
        classify(strip_line(entry_line(k, v))) == LineKind::Pair(k, v),
{
    let l = entry_line(k, v);
    lemma_plain_chars(k);
    lemma_plain_chars(v);
    let tail: Seq<char> = if v.len() == 0 {
        Seq::empty()
    } else {
        seq![' '] + v
    };
    let t = k + seq![' ', '='] + tail;
    assert(l[0] == k[0]);
    assert(trim_start(l) == l);
    if v.len() == 0 {
        assert(l =~= (k + seq![' ', '=']) + seq![' ']);
        assert(t =~= k + seq![' ', '=']);
        lemma_trim_end_before_white(k + seq![' ', '='], seq![' ']);
    } else {
        assert(l =~= t);
        assert(l.last() == v.last());
    }
    assert(trim(l) == t);
    assert forall|j: int| 0 <= j < t.len() implies t[j] != ';' && t[j] != '#' && t[j] != '\n'
        && (j <= k.len() ==> t[j] != '=') by {
        if j < k.len() {
            assert(t[j] == k[j]);
        } else if j >= k.len() + 3 {
            assert(t[j] == v[j - k.len() - 3]);
        }
    }
    lemma_find_first_of(t, ';', '#', t.len() as int);
    assert(t.take(t.len() as int) =~= t);
    assert(strip_line(l) == t);
    assert(!t.contains('\n'));
    assert(!l.contains('\n')) by {
        assert forall|j: int| 0 <= j < l.len() implies l[j] != '\n' by {
            if j < k.len() {
                assert(l[j] == k[j]);
            } else if j >= k.len() + 3 {
                assert(l[j] == v[j - k.len() - 3]);
            }
        }
    }
    // classification of the stripped line
    assert(t[0] == k[0]);
    assert(t.last() == '=' || t.last() == v.last());
    lemma_trim_no_outer_white(t);
    lemma_find_first_of(t, '=', '=', k.len() as int + 1);
    assert(t.take(k.len() as int + 1) =~= k + seq![' ']);
    assert(trim_start(k + seq![' ']) == k + seq![' ']);
    lemma_trim_end_before_white(k, seq![' ']);
    assert(t.subrange(k.len() as int + 2, t.len() as int) =~= tail);
    if v.len() > 0 {
        assert(tail =~= seq![' '] + v);
        lemma_trim_start_after_white(seq![' '], v);
    }
    lemma_trim_no_outer_white(v);
    assert(trim(t.take(k.len() as int + 1)) == k);
    assert(trim(tail) == v);
    assert(t[0] != '[');
    assert(find_first_of(t, '=', '=') < t.len());
    assert(classify(t) == LineKind::Pair(k, v));
}

/// Reading back one rendered section, entry by entry.
proof fn lemma_run_section(cur: Option<Seq<char>>, d: DocModel, n: Seq<char>, e: EntriesModel, m: int, first: int)
    requires
        !has_name(d, n),
        plain_text(n),
        names_unique(e),
        0 <= m <= e.len(),
        forall|j: int| 0 <= j < e.len() ==> (#[trigger] e[j]).0.len() > 0 && plain_text(e[j].0) && plain_text(e[j].1),
    ensures
        run_from(Ok((cur, d)), strip_lines(section_lines(n, e.take(m))), first)
            == Ok::<ParseState, (int, Seq<char>)>((Some(n), d.push((n, e.take(m))))),
    decreases m,
{
    lemma_header_line(n);
    if m == 0 {
        let ls = strip_lines(section_lines(n, e.take(0)));
        assert(ls =~= seq![header_line(n)]);
        assert(ls.drop_last() =~= Seq::<Seq<char>>::empty());
        assert(e.take(0) =~= Seq::<(Seq<char>, Seq<char>)>::empty());
        assert(run_from(Ok((cur, d)), ls.drop_last(), first) == Ok::<ParseState, (int, Seq<char>)>((cur, d)));
        assert(ls.last() == header_line(n));
        assert(open_section(d, n) == d.push((n, Seq::<(Seq<char>, Seq<char>)>::empty())));
    } else {
        lemma_run_section(cur, d, n, e, m - 1, first);
        let k = e[m - 1].0;
        let v = e[m - 1].1;
        lemma_entry_line(k, v);
        let prev = section_lines(n, e.take(m - 1));
        let ls = strip_lines(section_lines(n, e.take(m)));
        assert(section_lines(n, e.take(m)) =~= prev.push(entry_line(k, v)));
        assert(ls.drop_last() =~= strip_lines(prev));
        assert(ls.last() == strip_line(entry_line(k, v)));
        let dm = d.push((n, e.take(m - 1)));
        assert(!has_name(e.take(m - 1), k)) by {
            let em = e.take(m - 1);
            if has_name(em, k) {
                let j = choose|j: int| 0 <= j < em.len() && (#[trigger] em[j]).0 == k;
                assert(e[j].0 == e[m - 1].0);
            }
        }
        assert(upsert(e.take(m - 1), k, v) =~= e.take(m));
        assert forall|i: int| 0 <= i < d.len() implies d[i].0 != n by {
            if d[i].0 == n {
                assert(has_name(d, n));
            }
        }
        assert(set_value(dm, n, k, v) =~= d.push((n, e.take(m))));
    }
}

/// Reading back a rendered document, section by section.
proof fn lemma_run_render(d: DocModel)
    requires
        doc_wf(d),
        renderable(d),
    ensures
        run_lines(strip_lines(render_lines(d))) == Ok::<ParseState, (int, Seq<char>)>(
            (if d.len() == 0 { None } else { Some(d.last().0) }, d),
        ),
        forall|i: int|
            0 <= i < render_lines(d).len() ==> !(#[trigger] render_lines(d)[i]).contains('\n')
                && !strip_line(render_lines(d)[i]).contains('\n'),
    decreases d.len(),
{
    if d.len() == 0 {
        assert(strip_lines(render_lines(d)) =~= Seq::<Seq<char>>::empty());
        assert(d =~= DocModel::empty());
    } else {
        let p = d.drop_last();
        let (n, e) = d.last();
        assert(doc_wf(p) && renderable(p)) by {
            assert forall|i: int| 0 <= i < p.len() implies names_unique(#[trigger] p[i].1) by {
                assert(p[i] == d[i]);
            }
            assert forall|i: int| 0 <= i < p.len() implies #[trigger] p[i] == d[i] by {}
        }
        lemma_run_render(p);
        assert(d[d.len() - 1] == (n, e));
        assert(names_unique(e));
        assert(!has_name(p, n)) by {
            if has_name(p, n) {
                let j = choose|j: int| 0 <= j < p.len() && p[j].0 == n;
                assert(d[j].0 == d[d.len() - 1].0);
            }
        }
        assert forall|j: int| 0 <= j < e.len() implies (#[trigger] e[j]).0.len() > 0 && plain_text(e[j].0) && plain_text(e[j].1) by {
            assert(e[j] == d[d.len() - 1].1[j]);
        }
        let a = render_lines(p);
        let b = section_lines(n, e);
        assert(render_lines(d) == a + b);
        assert(strip_lines(a + b) =~= strip_lines(a) + strip_lines(b));
        lemma_run_concat(Ok((None, Seq::empty())), strip_lines(a), strip_lines(b), 1);
        assert(e.take(e.len() as int) =~= e);
        lemma_run_section(
            if p.len() == 0 { None } else { Some(p.last().0) },
            p,
            n,
            e,
            e.len() as int,
            1 + strip_lines(a).len() as int,
        );
        assert(p.push((n, e)) =~= d);
        assert(run_lines(strip_lines(a)) == Ok::<ParseState, (int, Seq<char>)>(
            (if p.len() == 0 { None } else { Some(p.last().0) }, p),
        ));
        assert(run_lines(strip_lines(render_lines(d))) == run_from(run_lines(strip_lines(a)), strip_lines(b), 1 + strip_lines(a).len() as int));
        lemma_header_line(n);
        assert forall|i: int| 0 <= i < (a + b).len() implies !(#[trigger] (a + b)[i]).contains('\n')
            && !strip_line((a + b)[i]).contains('\n') by {
            if i >= a.len() {
                let j = i - a.len();
                if j > 0 {
                    let en = e[j - 1];
                    assert(b[j] == entry_line(en.0, en.1));
                    lemma_entry_line(en.0, en.1);
                }
            } else {
                assert((a + b)[i] == a[i]);
            }
        }
    }
}

/// Rendering a document and parsing the text gives the same document back,
/// provided every section name and key is non-empty and every name, key and
/// value holds none of `=`, `[`, `]`, `;`, `#` or a newline and has no
/// whitespace at either end.
pub proof fn lemma_render_parse_round_trip(doc: Ini)
    requires
        doc.wf(),
        renderable(doc@),
    ensures
        parse_text(render_text(doc@)) == Ok::<DocModel, (int, Seq<char>)>(doc@),
{
    let d = doc@;
    let ls = render_lines(d);
    lemma_run_render(d);
    lemma_text_lines_of_join(ls);
    let sl = strip_lines(ls);
    assert forall|i: int| 0 <= i < sl.len() implies !sl[i].contains('\n') by {
        assert(sl[i] == strip_line(ls[i]));
    }
    lemma_text_lines_of_join(sl);
    assert(strip_text(render_text(d)) == join_lines(sl));
}

/// Trimming the start adds no character that was not there.
proof fn lemma_trim_start_keeps_out(x: Seq<char>, c: char)
    requires
        !x.contains(c),
    ensures
        !trim_start(x).contains(c),
    decreases x.len(),
{
    if x.len() > 0 && is_white(x[0]) {
        assert(!x.drop_first().contains(c)) by {
            if x.drop_first().contains(c) {
                let j = choose|j: int| 0 <= j < x.drop_first().len() && x.drop_first()[j] == c;
                assert(x[j + 1] == c);
            }
        }
        lemma_trim_start_keeps_out(x.drop_first(), c);
    }
}

/// Trimming the end adds no character that was not there.
proof fn lemma_trim_end_keeps_out(x: Seq<char>, c: char)
    requires
        !x.contains(c),
    ensures
        !trim_end(x).contains(c),
    decreases x.len(),
{
    if x.len() > 0 && is_white(x.last()) {
        assert(!x.drop_last().contains(c)) by {
            if x.drop_last().contains(c) {
                let j = choose|j: int| 0 <= j < x.drop_last().len() && x.drop_last()[j] == c;
                assert(x[j] == c);
            }
        }
        lemma_trim_end_keeps_out(x.drop_last(), c);
    }
}

/// Trimming adds no character that was not there.
proof fn lemma_trim_keeps_out(x: Seq<char>, c: char)
    requires
        !x.contains(c),
    ensures
        !trim(x).contains(c),
{
    lemma_trim_start_keeps_out(x, c);
    lemma_trim_end_keeps_out(trim_start(x), c);
}

/// What trimming the start leaves begins with no whitespace.
proof fn lemma_trim_start_first(x: Seq<char>)
    ensures
        trim_start(x).len() == 0 || !is_white(trim_start(x)[0]),
    decreases x.len(),
{
    if x.len() > 0 && is_white(x[0]) {
        lemma_trim_start_first(x.drop_first());
    }
}

/// What trimming the end leaves is a prefix ending with no whitespace.
proof fn lemma_trim_end_prefix(x: Seq<char>)
    ensures
        trim_end(x).len() <= x.len(),
        trim_end(x) == x.take(trim_end(x).len() as int),
        trim_end(x).len() == 0 || !is_white(trim_end(x).last()),
    decreases x.len(),
{
    if x.len() > 0 && is_white(x.last()) {
        lemma_trim_end_prefix(x.drop_last());
        assert(x.drop_last().take(trim_end(x).len() as int) =~= x.take(trim_end(x).len() as int));
    } else {
        assert(x.take(x.len() as int) =~= x);
    }
}

/// A trimmed text has no whitespace at either end.
proof fn lemma_trim_outer(x: Seq<char>)
    ensures
        no_outer_white(trim(x)),
{
    lemma_trim_start_first(x);
    lemma_trim_end_prefix(trim_start(x));
    let t = trim(x);
    if t.len() > 0 {
        assert(t[0] == trim_start(x)[0]);
    }
}

/// A line stripped of its comment holds no character `c` where the line held none.
proof fn lemma_strip_line_keeps_out(l: Seq<char>, c: char)
    requires
        !l.contains(c),
    ensures
        !strip_line(l).contains(c),
{
    let t = trim(l);
    lemma_trim_keeps_out(l, c);
    lemma_find_first_of_bounds(t, ';', '#');
    let x = strip_line(l);
    if x.contains(c) {
        let j = choose|j: int| 0 <= j < x.len() && x[j] == c;
        assert(t[j] == c);
    }
}

/// The lines of stripped text are the stripped lines.
proof fn lemma_lines_of_stripped(s: Seq<char>)
    ensures
        text_lines(strip_text(s)) == strip_lines(text_lines(s)),
        forall|i: int|
            0 <= i < strip_lines(text_lines(s)).len() ==> !(#[trigger] strip_lines(
                text_lines(s),
            )[i]).contains('\n'),
{
    let ls = text_lines(s);
    lemma_text_lines_no_newline(s);
    assert forall|i: int| 0 <= i < strip_lines(ls).len() implies !(#[trigger] strip_lines(
        ls,
    )[i]).contains('\n') by {
        lemma_strip_line_keeps_out(ls[i], '\n');
    }
    lemma_text_lines_of_join(strip_lines(ls));
}

/// A comment starts at the earlier of the first `;` and the first `#`.
pub proof fn lemma_comment_starts_at_earlier_marker(l: Seq<char>)
    ensures
        ({
            let t = trim(l);
            let i = find_first_of(t, ';', ';');
            let j = find_first_of(t, '#', '#');
            strip_line(l) == t.take(if i <= j { i } else { j })
        }),
{
    let t = trim(l);
    let i = find_first_of(t, ';', ';');
    let j = find_first_of(t, '#', '#');
    lemma_find_first_of_bounds(t, ';', ';');
    lemma_find_first_of_bounds(t, '#', '#');
    let m = if i <= j { i } else { j };
    lemma_find_first_of(t, ';', '#', m);
}

/// Stripping comments twice strips no more than once, for every text whose
/// stripped lines end in no whitespace (a line such as `a ;c` keeps the space
/// before its comment, which a second pass trims).
pub proof fn lemma_strip_idempotent(s: Seq<char>)
    requires
        forall|i: int|
            0 <= i < text_lines(s).len() ==> {
                let x = #[trigger] strip_line(text_lines(s)[i]);
                x.len() == 0 || !is_white(x.last())
            },
    ensures
        strip_text(strip_text(s)) == strip_text(s),
{
    let ls = text_lines(s);
    lemma_lines_of_stripped(s);
    let sl = strip_lines(ls);
    assert forall|i: int| 0 <= i < sl.len() implies strip_line(sl[i]) == sl[i] by {
        let l = ls[i];
        let t = trim(l);
        let x = strip_line(l);
        assert(sl[i] == x);
        lemma_trim_outer(l);
        lemma_find_first_of_bounds(t, ';', '#');
        if x.len() > 0 {
            assert(x[0] == t[0]);
        }
        lemma_trim_no_outer_white(x);
        lemma_find_first_of(x, ';', '#', x.len() as int);
        assert(x.take(x.len() as int) =~= x);
    }
    assert(strip_lines(sl) =~= sl);
}

/// The text `src` up to line `k`, comments stripped, run through the parser.
pub open spec fn run_prefix(src: Seq<char>, k: int) -> ParseOutcome {
    run_lines(strip_lines(text_lines(src)).take(k))
}

/// Whatever state the lines before it left, a line of the form `[name]`
/// (whitespace around it allowed, no comment marker in it) makes the section
/// called by its trimmed interior the current one, opening it where it does
/// not exist and keeping its keys where it does. A failure before it stays.
pub proof fn lemma_header_selects_section(src: Seq<char>, k: int)
    requires
        0 <= k < text_lines(src).len(),
        trim(text_lines(src)[k]).len() >= 2,
        trim(text_lines(src)[k])[0] == '[',
        trim(text_lines(src)[k]).last() == ']',
        !text_lines(src)[k].contains(';'),
        !text_lines(src)[k].contains('#'),
    ensures
        ({
            let t = trim(text_lines(src)[k]);
            let n = trim(t.subrange(1, t.len() - 1));
            run_prefix(src, k + 1) == match run_prefix(src, k) {
                Ok(st) => Ok::<ParseState, (int, Seq<char>)>((Some(n), open_section(st.1, n))),
                Err(e) => Err(e),
            }
        }),
{
    let ls = text_lines(src);
    let l = ls[k];
    let t = trim(l);
    let sl = strip_lines(ls);
    lemma_trim_keeps_out(l, ';');
    lemma_trim_keeps_out(l, '#');
    lemma_not_contains(t, ';');
    lemma_not_contains(t, '#');
    lemma_find_first_of(t, ';', '#', t.len() as int);
    assert(t.take(t.len() as int) =~= t);
    assert(sl[k] == t);
    lemma_trim_no_outer_white(t);
    assert(sl.take(k + 1).drop_last() =~= sl.take(k));
    assert(sl.take(k + 1).last() == t);
}

/// A line that, comment removed, is neither blank nor a `[...]` header and
/// holds no `=` fails the parse with its own 1-based number and trimmed
/// text, where every line before it was accepted.
pub proof fn lemma_line_without_separator_fails(src: Seq<char>, k: int)
    requires
        0 <= k < text_lines(src).len(),
        trim(strip_line(text_lines(src)[k])).len() > 0,
        !(trim(strip_line(text_lines(src)[k]))[0] == '[' && trim(
            strip_line(text_lines(src)[k]),
        ).last() == ']'),
        !strip_line(text_lines(src)[k]).contains('='),
        run_prefix(src, k) is Ok,
    ensures
        parse_text(src) == Err::<DocModel, (int, Seq<char>)>(
            (k + 1, trim(strip_line(text_lines(src)[k]))),
        ),
{
    let ls = text_lines(src);
    let sl = strip_lines(ls);
    let x = sl[k];
    let t = trim(x);
    lemma_lines_of_stripped(src);
    lemma_trim_keeps_out(x, '=');
    lemma_not_contains(t, '=');
    lemma_find_first_of(t, '=', '=', t.len() as int);
    assert(classify(x) == LineKind::Malformed);
    assert(sl.take(k + 1).drop_last() =~= sl.take(k));
    assert(sl.take(k + 1).last() == x);
    assert(run_lines(sl.take(k + 1)) == Err::<ParseState, (int, Seq<char>)>((k + 1, t)));
    assert(sl =~= sl.take(k + 1) + sl.skip(k + 1));
    lemma_run_concat(Ok((None, Seq::empty())), sl.take(k + 1), sl.skip(k + 1), 1);
    lemma_run_failed((k + 1, t), sl.skip(k + 1), 1 + (k + 1));
}

} // verus!
