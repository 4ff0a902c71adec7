//! The structural document: an ordered sequence of line entries that
//! preserves the file's layout, and its rendering back to text.

use vstd::prelude::*;

verus! {

/// A structural classification of one line of the configuration text.
#[derive(Debug, PartialEq, Eq)]
pub enum LineEntry {
    SectionHeader { name: String },
    KeyValue { key: String, value: String },
    Comment { text: String },
    Blank,
}

/// The mathematical form of a line entry: each textual field as a
/// sequence of characters.
#[verifier::ext_equal]
pub enum EntrySpec {
    Header { name: Seq<char> },
    Pair { key: Seq<char>, value: Seq<char> },
    Comment { text: Seq<char> },
    Blank,
}

impl View for LineEntry {
    type V = EntrySpec;

    open spec fn view(&self) -> EntrySpec {
        match self {
            LineEntry::SectionHeader { name } => EntrySpec::Header { name: name@ },
            LineEntry::KeyValue { key, value } => EntrySpec::Pair { key: key@, value: value@ },
            LineEntry::Comment { text } => EntrySpec::Comment { text: text@ },
            LineEntry::Blank => EntrySpec::Blank,
        }
    }
}

/// A structural, parse-time failure. A malformed input yields one of
/// these and never a partial document.
#[derive(Debug, Clone, Copy, PartialEq, Eq, Structural)]
pub enum ParseError {
    /// A line began with `[` but did not end with `]`.
    MalformedSectionHeader,
    /// A key/value line held no `=` separator.
    MalformedKeyValue,
}

/// The ordered sequence of line entries, in file order.
#[derive(Debug, PartialEq, Eq)]
pub struct Document {
    pub entries: Vec<LineEntry>,
}

impl View for Document {
    type V = Seq<EntrySpec>;

    open spec fn view(&self) -> Seq<EntrySpec> {
        Seq::new(self.entries@.len(), |i: int| self.entries@[i]@)
    }
}

/// The text of one entry, without its terminating newline: `[name]`
/// for a header, `key = value` for a pair, the stored text for a
/// comment, nothing for a blank.
pub open spec fn render_line(e: EntrySpec) -> Seq<char> {
    match e {
        EntrySpec::Header { name } => seq!['['] + name + seq![']'],
        EntrySpec::Pair { key, value } => key + seq![' ', '=', ' '] + value,
        EntrySpec::Comment { text } => text,
        EntrySpec::Blank => Seq::empty(),
    }
}

/// The text of a document: each entry on a line of its own, every line
/// terminated by a newline.
pub open spec fn render_doc(es: Seq<EntrySpec>) -> Seq<char>
    decreases es.len(),
{
    if es.len() == 0 {
        Seq::empty()
    } else {
        render_line(es[0]) + seq!['\n'] + render_doc(es.drop_first())
    }
}

/// Rendering appends line by line.
pub proof fn lemma_render_doc_push(es: Seq<EntrySpec>, e: EntrySpec)
    ensures
        render_doc(es.push(e)) == render_doc(es) + render_line(e) + seq!['\n'],
    decreases es.len(),
{
    if es.len() == 0 {
        assert(es.push(e).drop_first() =~= Seq::<EntrySpec>::empty());
        assert(render_doc(es.push(e).drop_first()) == Seq::<char>::empty());
        assert(es.push(e)[0] == e);
        assert(render_doc(es.push(e)) == render_line(e) + seq!['\n'] + Seq::<char>::empty());
        assert(render_doc(es) == Seq::<char>::empty());
        assert(render_doc(es.push(e)) =~= render_doc(es) + render_line(e) + seq!['\n']);
    } else {
        assert(es.push(e).drop_first() =~= es.drop_first().push(e));
        lemma_render_doc_push(es.drop_first(), e);
        assert(es.push(e)[0] == es[0]);
        assert(render_doc(es.push(e)) == render_line(es[0]) + seq!['\n'] + (render_doc(
            es.drop_first(),
        ) + render_line(e) + seq!['\n']));
        assert(render_doc(es) == render_line(es[0]) + seq!['\n'] + render_doc(es.drop_first()));
        assert(render_doc(es.push(e)) =~= render_doc(es) + render_line(e) + seq!['\n']);
    }
}

impl Document {
    /// Render the document as text, using the conventions the parser
    /// recognizes.
    pub fn format(&self) -> (r: String)
        ensures
            r@ == render_doc(self@),
    {
        let mut out = String::new();
        self.format_into(&mut out);
        out
    }

    /// Append the rendered text of the document to `out`.
    pub fn format_into(&self, out: &mut String)
        ensures
            final(out)@ == old(out)@ + render_doc(self@),
    {
        let ghost base: Seq<char> = out@;
        let n = self.entries.len();
        let mut i: usize = 0;
        while i < n
            invariant
                n == self.entries.len(),
                i <= n,
                out@ == base + render_doc(self@.take(i as int)),
            decreases n - i,
    {
            proof {
                assert(self@.take(i as int).push(self@[i as int]) =~= self@.take(i + 1));
                lemma_render_doc_push(self@.take(i as int), self@[i as int]);
                reveal_strlit("[");
                reveal_strlit("]");
                reveal_strlit("\n");
                reveal_strlit(" = ");
            }
            match &self.entries[i] {
                LineEntry::SectionHeader { name } => {
                    out.append("[");
                    out.append(name.as_str());
                    out.append("]");
                },
                LineEntry::KeyValue { key, value } => {
                    out.append(key.as_str());
                    out.append(" = ");
                    out.append(value.as_str());
                },
                LineEntry::Comment { text } => {
                    out.append(text.as_str());
                },
                LineEntry::Blank => {},
            }
            out.append("\n");
            proof {
                assert(out@ =~= base + render_doc(self@.take(i + 1)));
            }
            i = i + 1;
        }
        proof {
            assert(self@.take(n as int) =~= self@);
        }
    }
}

} // verus!
