//! The parsed document: named sections, each holding key/value pairs.
//!
//! Both levels are kept as vectors in order of first appearance, with unique
//! names. Their models are sequences of `(name, contents)` pairs of
//! character sequences.
use vstd::prelude::*;

use crate::text::{join_lines, lemma_join_lines_push, push_char};

verus! {

/// The model of a section: its `(key, value)` pairs in order of first appearance.
pub type EntriesModel = Seq<(Seq<char>, Seq<char>)>;

/// The model of a document: its `(section name, entries)` pairs in order of
/// first appearance.
pub type DocModel = Seq<(Seq<char>, EntriesModel)>;

/// Some pair of `s` is named `k`.
pub open spec fn has_name<V>(s: Seq<(Seq<char>, V)>, k: Seq<char>) -> bool {
    exists|i: int| 0 <= i < s.len() && s[i].0 == k
}

/// No two pairs of `s` share a name.
pub open spec fn names_unique<V>(s: Seq<(Seq<char>, V)>) -> bool {
    forall|i: int, j: int| 0 <= i < s.len() && 0 <= j < s.len() && i != j ==> s[i].0 != s[j].0
}

/// What `s` holds under the name `k`, if anything.
pub open spec fn value_of<V>(s: Seq<(Seq<char>, V)>, k: Seq<char>) -> Option<V> {
    if has_name(s, k) {
        Some(s[choose|i: int| 0 <= i < s.len() && s[i].0 == k].1)
    } else {
        None
    }
}

/// Section names are unique, and so are the keys within each section.
pub open spec fn doc_wf(d: DocModel) -> bool {
    &&& names_unique(d)
    &&& forall|i: int| 0 <= i < d.len() ==> names_unique(#[trigger] d[i].1)
}

/// The entries with `k` bound to `v`: an existing key keeps its place and
/// takes the new value, a new key goes last.
pub open spec fn upsert(e: EntriesModel, k: Seq<char>, v: Seq<char>) -> EntriesModel {
    if has_name(e, k) {
        e.map_values(|p: (Seq<char>, Seq<char>)| if p.0 == k { (k, v) } else { p })
    } else {
        e.push((k, v))
    }
}

/// The document once a header names section `n`: unchanged where `n`
/// exists, else with an empty section `n` added last.
pub open spec fn open_section(d: DocModel, n: Seq<char>) -> DocModel {
    if has_name(d, n) {
        d
    } else {
        d.push((n, Seq::empty()))
    }
}

/// The document with `k` bound to `v` in section `n`.
pub open spec fn set_value(d: DocModel, n: Seq<char>, k: Seq<char>, v: Seq<char>) -> DocModel {
    d.map_values(|p: (Seq<char>, EntriesModel)| if p.0 == n { (p.0, upsert(p.1, k, v)) } else { p })
}

/// The header line that opens section `n`: `[n]`.
pub open spec fn header_line(n: Seq<char>) -> Seq<char> {
    seq!['['] + n + seq![']']
}

/// The line that binds `k` to `v`: `k = v`.
pub open spec fn entry_line(k: Seq<char>, v: Seq<char>) -> Seq<char> {
    k + seq![' ', '=', ' '] + v
}

/// The lines of one section: its header, then one line per key.
pub open spec fn section_lines(n: Seq<char>, e: EntriesModel) -> Seq<Seq<char>> {
    seq![header_line(n)] + e.map_values(|p: (Seq<char>, Seq<char>)| entry_line(p.0, p.1))
}

/// The lines of a document, section after section.
pub open spec fn render_lines(d: DocModel) -> Seq<Seq<char>>
    decreases d.len(),
{
    if d.len() == 0 {
        Seq::empty()
    } else {
        render_lines(d.drop_last()) + section_lines(d.last().0, d.last().1)
    }
}

/// A document as INI text: its lines, each ended by a newline.
pub open spec fn render_text(d: DocModel) -> Seq<char> {
    join_lines(render_lines(d))
}

/// A section: key/value pairs with unique keys, in order of first appearance.
#[derive(Debug, PartialEq, Eq)]
pub struct Section {
    entries: Vec<(String, String)>,
}

impl View for Section {
    type V = EntriesModel;

    closed spec fn view(&self) -> EntriesModel {
        self.entries@.map_values(|p: (String, String)| (p.0@, p.1@))
    }
}

impl Section {
    /// Keys are unique.
    pub open spec fn wf(&self) -> bool {
        names_unique(self@)
    }

    /// Every section keeps its keys unique.
    #[verifier::type_invariant]
    spec fn keys_unique(self) -> bool {
        self.wf()
    }

    /// An empty section.
    pub fn new() -> (r: Section)
        ensures
            r@ == Seq::<(Seq<char>, Seq<char>)>::empty(),
            r.wf(),
    {
        let r = Section { entries: Vec::new() };
        assert(r@ =~= Seq::<(Seq<char>, Seq<char>)>::empty());
        r
    }

    /// The index of the pair with key `key`, if any.
    fn position(&self, key: &String) -> (r: Option<usize>)
        ensures
            r is None <==> !has_name(self@, key@),
            r matches Some(i) ==> i < self@.len() && self@[i as int].0 == key@,
    {
        let mut i: usize = 0;
        while i < self.entries.len()
            invariant
                i <= self.entries.len(),
                forall|j: int| 0 <= j < i ==> self@[j].0 != key@,
            decreases self.entries.len() - i,
        {
            if self.entries[i].0 == *key {
                assert(self@[i as int].0 == key@);
                return Some(i);
            }
            i = i + 1;
        }
        None
    }

    /// The value bound to `key`, if any.
    pub fn get(&self, key: &str) -> (r: Option<&String>)
        ensures
            match r {
                Some(v) => value_of(self@, key@) == Some(v@),
                None => value_of(self@, key@) is None,
            },
    {
        proof {
            use_type_invariant(self);
        }
        let k = String::from_str(key);
        match self.position(&k) {
            Some(i) => {
                proof {
                    let j = choose|j: int| 0 <= j < self@.len() && self@[j].0 == key@;
                    assert(j == i);
                }
                Some(&self.entries[i].1)
            },
            None => None,
        }
    }

    /// Binds `key` to `value`, replacing the value of an existing key.
    pub fn insert(&mut self, key: String, value: String)
        ensures
            final(self)@ == upsert(old(self)@, key@, value@),
            final(self).wf(),
    {
        proof {
            use_type_invariant(&*self);
        }
        let ghost k = key@;
        let ghost v = value@;
        let found = self.position(&key);
        let mut entries: Vec<(String, String)> = Vec::new();
        std::mem::swap(&mut entries, &mut self.entries);
        match found {
            Some(i) => {
                entries.set(i, (key, value));
            },
            None => {
                entries.push((key, value));
            },
        }
        assert(entries@.map_values(|p: (String, String)| (p.0@, p.1@)) =~= upsert(old(self)@, k, v));
        self.entries = entries;
    }

    /// The number of keys.
    pub fn len(&self) -> (r: usize)
        ensures
            r == self@.len(),
    {
        self.entries.len()
    }

    /// Whether the section holds no key.
    pub fn is_empty(&self) -> (r: bool)
        ensures
            r == (self@.len() == 0),
    {
        self.entries.len() == 0
    }

    /// A copy of this section.
    pub fn duplicate(&self) -> (r: Section)
        ensures
            r@ == self@,
            r.wf(),
    {
        proof {
            use_type_invariant(self);
        }
        let mut entries: Vec<(String, String)> = Vec::new();
        let mut i: usize = 0;
        while i < self.entries.len()
            invariant
                i <= self.entries.len(),
                entries@ == self.entries@.take(i as int),
            decreases self.entries.len() - i,
        {
            let k = self.entries[i].0.clone();
            let v = self.entries[i].1.clone();
            entries.push((k, v));
            assert(entries@ =~= self.entries@.take(i + 1));
            i = i + 1;
        }
        assert(entries@ =~= self.entries@);
        Section { entries }
    }
}

impl Clone for Section {
    fn clone(&self) -> (r: Section) {
        self.duplicate()
    }
}

/// A parsed INI document: sections with unique names, in order of first
/// appearance.
#[derive(Debug, PartialEq, Eq)]
pub struct Ini {
    sections: Vec<(String, Section)>,
}

impl View for Ini {
    type V = DocModel;

    closed spec fn view(&self) -> DocModel {
        self.sections@.map_values(|p: (String, Section)| (p.0@, p.1@))
    }
}

impl Ini {
    /// Section names are unique, and keys are unique within each section.
    pub open spec fn wf(&self) -> bool {
        doc_wf(self@)
    }

    /// Every document keeps its names and keys unique.
    #[verifier::type_invariant]
    spec fn names_and_keys_unique(self) -> bool {
        self.wf()
    }

    /// A document without sections.
    pub fn new() -> (r: Ini)
        ensures
            r@ == DocModel::empty(),
            r.wf(),
    {
        let r = Ini { sections: Vec::new() };
        assert(r@ =~= DocModel::empty());
        r
    }

    /// The index of the section named `name`, if any.
    fn position(&self, name: &String) -> (r: Option<usize>)
        ensures
            r is None <==> !has_name(self@, name@),
            r matches Some(i) ==> i < self@.len() && self@[i as int].0 == name@,
    {
        let mut i: usize = 0;
        while i < self.sections.len()
            invariant
                i <= self.sections.len(),
                forall|j: int| 0 <= j < i ==> self@[j].0 != name@,
            decreases self.sections.len() - i,
        {
            if self.sections[i].0 == *name {
                assert(self@[i as int].0 == name@);
                return Some(i);
            }
            i = i + 1;
        }
        None
    }

    /// The section named `name`; an empty section where there is none.
    pub fn section(&self, name: &str) -> (r: Section)
        ensures
            r.wf(),
            match value_of(self@, name@) {
                Some(e) => r@ == e,
                None => r@.len() == 0,
            },
    {
        proof {
            use_type_invariant(self);
        }
        let n = String::from_str(name);
        match self.position(&n) {
            Some(i) => {
                proof {
                    let j = choose|j: int| 0 <= j < self@.len() && self@[j].0 == name@;
                    assert(j == i);
                    assert(self@[i as int].1 == self.sections@[i as int].1@);
                }
                self.sections[i].1.duplicate()
            },
            None => Section::new(),
        }
    }

    /// The number of sections.
    pub fn len(&self) -> (r: usize)
        ensures
            r == self@.len(),
    {
        self.sections.len()
    }

    /// Whether the document holds no section.
    pub fn is_empty(&self) -> (r: bool)
        ensures
            r == (self@.len() == 0),
    {
        self.sections.len() == 0
    }

    /// The section names, in order of first appearance.
    pub fn section_names(&self) -> (r: Vec<String>)
        ensures
            r@.len() == self@.len(),
            forall|i: int| 0 <= i < r@.len() ==> #[trigger] r@[i]@ == self@[i].0,
    {
        let mut r: Vec<String> = Vec::new();
        let mut i: usize = 0;
        while i < self.sections.len()
            invariant
                i <= self.sections.len(),
                r@.len() == i,
                forall|j: int| 0 <= j < i ==> #[trigger] r@[j]@ == self@[j].0,
            decreases self.sections.len() - i,
        {
            r.push(self.sections[i].0.clone());
            i = i + 1;
        }
        r
    }

    /// Opens section `name`: an existing section is reused with its keys, a
    /// new one is added empty. Returns the section's index.
    pub fn open_section(&mut self, name: String) -> (idx: usize)
        ensures
            final(self)@ == open_section(old(self)@, name@),
            final(self).wf(),
            idx < final(self)@.len(),
            final(self)@[idx as int].0 == name@,
    {
        proof {
            use_type_invariant(&*self);
        }
        match self.position(&name) {
            Some(i) => i,
            None => {
                let ghost n = name@;
                let s = Section::new();
                let mut sections: Vec<(String, Section)> = Vec::new();
                std::mem::swap(&mut sections, &mut self.sections);
                sections.push((name, s));
                assert(sections@.map_values(|p: (String, Section)| (p.0@, p.1@)) =~= open_section(
                    old(self)@,
                    n,
                ));
                self.sections = sections;
                assert(self@[self@.len() - 1].0 == n);
                self.sections.len() - 1
            },
        }
    }

    /// Binds `key` to `value` in the section at index `idx`.
    pub fn insert_at(&mut self, idx: usize, key: String, value: String)
        requires
            idx < old(self)@.len(),
        ensures
            final(self)@ == set_value(old(self)@, old(self)@[idx as int].0, key@, value@),
            final(self).wf(),
    {
        proof {
            use_type_invariant(&*self);
        }
        let ghost n = self@[idx as int].0;
        let ghost k = key@;
        let ghost v = value@;
        let mut sections: Vec<(String, Section)> = Vec::new();
        std::mem::swap(&mut sections, &mut self.sections);
        let mut s = Section::new();
        std::mem::swap(&mut s, &mut sections[idx].1);
        s.insert(key, value);
        std::mem::swap(&mut s, &mut sections[idx].1);
        assert(sections@.map_values(|p: (String, Section)| (p.0@, p.1@)) =~= set_value(
            old(self)@,
            n,
            k,
            v,
        ));
        self.sections = sections;
    }

    /// The document as INI text: for each section a `[name]` line, then one
    /// `key = value` line per key.
    pub fn render(&self) -> (r: String)
        ensures
            r@ == render_text(self@),
    {
        let mut out = String::new();
        let mut i: usize = 0;
        while i < self.sections.len()
            invariant
                i <= self.sections.len(),
                out@ == join_lines(render_lines(self@.take(i as int))),
            decreases self.sections.len() - i,
        {
            let name = &self.sections[i].0;
            let sec = &self.sections[i].1;
            let ghost before = render_lines(self@.take(i as int));
            push_char(&mut out, '[');
            out.append(name.as_str());
            push_char(&mut out, ']');
            proof {
                lemma_join_lines_push(before, header_line(name@));
                assert(out@ =~= join_lines(before) + header_line(name@));
            }
            push_char(&mut out, '\n');
            proof {
                assert(before + section_lines(name@, sec@.take(0)) =~= before.push(header_line(name@)));
            }
            let mut j: usize = 0;
            while j < sec.entries.len()
                invariant
                    i < self.sections.len(),
                    sec == self.sections@[i as int].1,
                    name == self.sections@[i as int].0,
                    before == render_lines(self@.take(i as int)),
                    j <= sec.entries.len(),
                    out@ == join_lines(before + section_lines(name@, sec@.take(j as int))),
                decreases sec.entries.len() - j,
            {
                let ghost lines = before + section_lines(name@, sec@.take(j as int));
                let ghost line = entry_line(sec@[j as int].0, sec@[j as int].1);
                out.append(sec.entries[j].0.as_str());
                push_char(&mut out, ' ');
                push_char(&mut out, '=');
                push_char(&mut out, ' ');
                out.append(sec.entries[j].1.as_str());
                push_char(&mut out, '\n');
                proof {
                    lemma_join_lines_push(lines, line);
                    assert(lines.push(line) =~= before + section_lines(name@, sec@.take(j + 1)));
                    assert(out@ =~= join_lines(lines) + line + seq!['\n']);
                }
                j = j + 1;
            }
            proof {
                assert(sec@.take(j as int) =~= sec@);
                assert(self@.take(i + 1).drop_last() =~= self@.take(i as int));
                assert(self@.take(i + 1).last() == (name@, sec@));
            }
            i = i + 1;
        }
        assert(self@.take(i as int) =~= self@);
        out
    }

    /// A copy of this document.
    pub fn duplicate(&self) -> (r: Ini)
        ensures
            r@ == self@,
            r.wf(),
    {
        proof {
            use_type_invariant(self);
        }
        let mut sections: Vec<(String, Section)> = Vec::new();
        let mut i: usize = 0;
        while i < self.sections.len()
            invariant
                i <= self.sections.len(),
                sections@.map_values(|p: (String, Section)| (p.0@, p.1@)) == self@.take(i as int),
            decreases self.sections.len() - i,
        {
            let name = self.sections[i].0.clone();
            let sec = self.sections[i].1.duplicate();
            assert(self@[i as int] == (name@, sec@));
            assert(self@.take(i + 1) =~= self@.take(i as int).push((name@, sec@)));
            sections.push((name, sec));
            assert(sections@.map_values(|p: (String, Section)| (p.0@, p.1@)) =~= self@.take(i + 1));
            i = i + 1;
        }
        assert(self@.take(i as int) =~= self@);
        Ini { sections }
    }
}

impl Clone for Ini {
    fn clone(&self) -> (r: Ini) {
        self.duplicate()
    }
}

} // verus!
