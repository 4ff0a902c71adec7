//! The parser: newline-delimited text, each line classified as a
//! section header, a key/value pair, a comment or a blank.

use vstd::prelude::*;

use crate::entries::{Document, EntrySpec, LineEntry, ParseError};
use crate::text::{
    all_space, find_char, find_char_from, first_non_space, is_space, lemma_find_char_props,
    split_lines, trim, trim_spec,
};

verus! {

/// Classification of one line, without its newline:
/// - a whitespace-only line is blank;
/// - a line beginning with `[` must end with `]` and names a section;
/// - a line beginning with `;` or `#` is a comment, kept verbatim;
/// - any other line must hold a `=`; the trimmed text before the first
///   `=` is the key and the trimmed remainder is the value.
pub open spec fn classify_line(l: Seq<char>) -> Result<EntrySpec, ParseError> {
    if all_space(l) {
        Ok(EntrySpec::Blank)
    } else if l[0] == '[' {
        if l.len() >= 2 && l.last() == ']' {
            Ok(EntrySpec::Header { name: l.subrange(1, l.len() - 1) })
        } else {
            Err(ParseError::MalformedSectionHeader)
        }
    } else if l[0] == ';' || l[0] == '#' {
        Ok(EntrySpec::Comment { text: l })
    } else {
        match find_char(l, '=') {
            Some(i) => Ok(
                EntrySpec::Pair { key: trim_spec(l.take(i)), value: trim_spec(l.skip(i + 1)) },
            ),
            None => Err(ParseError::MalformedKeyValue),
        }
    }
}

/// Classification of a sequence of lines: the entries in order, or the
/// first line's error.
pub open spec fn parse_lines(ls: Seq<Seq<char>>) -> Result<Seq<EntrySpec>, ParseError>
    decreases ls.len(),
{
    if ls.len() == 0 {
        Ok(Seq::empty())
    } else {
        match classify_line(ls[0]) {
            Err(e) => Err(e),
            Ok(en) => match parse_lines(ls.drop_first()) {
                Err(e) => Err(e),
                Ok(rest) => Ok(seq![en] + rest),
            },
        }
    }
}

/// What parsing a whole text yields: its lines classified in order, or
/// the first structural error.
pub open spec fn parse_spec(t: Seq<char>) -> Result<Seq<EntrySpec>, ParseError> {
    parse_lines(split_lines(t))
}

/// Classify one line of text.
pub fn classify(line: &str) -> (r: Result<LineEntry, ParseError>)
    ensures
        match r {
            Ok(e) => classify_line(line@) == Ok::<EntrySpec, ParseError>(e@),
            Err(e) => classify_line(line@) == Err::<EntrySpec, ParseError>(e),
        },
{
    let n = line.unicode_len();
    let a = first_non_space(line);
    if a == n {
        return Ok(LineEntry::Blank);
    }
    assert(!all_space(line@)) by {
        assert(!is_space(line@[a as int]));
    }
    let c0 = line.get_char(0);
    if c0 == '[' {
        if n >= 2 && line.get_char(n - 1) == ']' {
            assert(line@.last() == ']');
            let name = line.substring_char(1, n - 1).to_owned();
            Ok(LineEntry::SectionHeader { name })
        } else {
            Err(ParseError::MalformedSectionHeader)
        }
    } else if c0 == ';' || c0 == '#' {
        Ok(LineEntry::Comment { text: line.to_owned() })
    } else {
        match find_char_from(line, 0, '=') {
            Some(i) => {
                proof {
                    assert(line@.skip(0) =~= line@);
                }
                let key = trim(line.substring_char(0, i));
                let value = trim(line.substring_char(i + 1, n));
                proof {
                    assert(line@.subrange(0, i as int) =~= line@.take(i as int));
                    assert(line@.subrange(i + 1, n as int) =~= line@.skip(i + 1));
                }
                Ok(LineEntry::KeyValue { key, value })
            },
            None => {
                proof {
                    assert(line@.skip(0) =~= line@);
                }
                Err(ParseError::MalformedKeyValue)
            },
        }
    }
}

/// Parse a whole text into a structural document, or report the first
/// structural error. The text is processed line by line; a final line
/// without a newline is a line of its own, and empty text holds no
/// lines at all.
pub fn parse(text: &str) -> (r: Result<Document, ParseError>)
    ensures
        match r {
            Ok(d) => parse_spec(text@) == Ok::<Seq<EntrySpec>, ParseError>(d@),
            Err(e) => parse_spec(text@) == Err::<Seq<EntrySpec>, ParseError>(e),
        },
{
    let n = text.unicode_len();
    let mut pos: usize = 0;
    let mut entries: Vec<LineEntry> = Vec::new();
    proof {
        assert(text@.skip(0int) =~= text@);
        let done = Seq::new(entries@.len(), |i: int| entries@[i]@);
        match parse_lines(split_lines(text@)) {
            Ok(rest) => {
                assert(done + rest =~= rest);
            },
            Err(_) => {},
        }
    }
    loop
        invariant
            n == text@.len(),
            pos <= n,
            ({
                let done = Seq::new(entries@.len(), |i: int| entries@[i]@);
                match parse_lines(split_lines(text@.skip(pos as int))) {
                    Ok(rest) => parse_spec(text@) == Ok::<Seq<EntrySpec>, ParseError>(done + rest),
                    Err(e) => parse_spec(text@) == Err::<Seq<EntrySpec>, ParseError>(e),
                }
            }),
        ensures
            pos == n,
            ({
                let done = Seq::new(entries@.len(), |i: int| entries@[i]@);
                match parse_lines(split_lines(text@.skip(pos as int))) {
                    Ok(rest) => parse_spec(text@) == Ok::<Seq<EntrySpec>, ParseError>(done + rest),
                    Err(e) => parse_spec(text@) == Err::<Seq<EntrySpec>, ParseError>(e),
                }
            }),
        decreases n - pos,
    {
        if pos >= n {
            break ;
        }
        let ghost suffix = text@.skip(pos as int);
        let ghost done_old = Seq::new(entries@.len(), |i: int| entries@[i]@);
        let nl = find_char_from(text, pos, '\n');
        let end: usize = match nl {
            Some(i) => i,
            None => n,
        };
        let line = text.substring_char(pos, end);
        proof {
            assert(suffix.len() > 0);
            match nl {
                Some(i) => {
                    assert(line@ =~= suffix.take(end - pos));
                    assert(suffix.skip(end - pos + 1) =~= text@.skip(end + 1));
                    assert(split_lines(suffix) == seq![line@] + split_lines(text@.skip(end + 1)));
                },
                None => {
                    lemma_find_char_props(suffix, '\n');
                    assert(line@ =~= suffix);
                    assert(split_lines(suffix) == seq![line@]);
                    assert(text@.skip(n as int) =~= Seq::<char>::empty());
                    assert(seq![line@] =~= seq![line@] + split_lines(text@.skip(n as int)));
                },
            }
        }
        let next: usize = if end < n {
            end + 1
        } else {
            n
        };
        let ghost rest_lines = split_lines(text@.skip(next as int));
        proof {
            assert(split_lines(suffix) == seq![line@] + rest_lines);
            assert((seq![line@] + rest_lines)[0] == line@);
            assert((seq![line@] + rest_lines).drop_first() =~= rest_lines);
        }
        match classify(line) {
            Ok(entry) => {
                proof {
                    let done_new = done_old.push(entry@);
                    match parse_lines(rest_lines) {
                        Ok(rest) => {
                            assert(parse_lines(split_lines(suffix)) == Ok::<
                                Seq<EntrySpec>,
                                ParseError,
                            >(seq![entry@] + rest));
                            assert(done_old + (seq![entry@] + rest) =~= done_new + rest);
                        },
                        Err(_) => {},
                    }
                }
                entries.push(entry);
                proof {
                    assert(Seq::new(entries@.len(), |i: int| entries@[i]@) =~= done_old.push(
                        entry@,
                    ));
                }
                pos = next;
            },
            Err(e) => {
                return Err(e);
            },
        }
    }
    proof {
        assert(text@.skip(n as int) =~= Seq::<char>::empty());
        let done = Seq::new(entries@.len(), |i: int| entries@[i]@);
        assert(done + Seq::<EntrySpec>::empty() =~= done);
    }
    let d = Document { entries };
    proof {
        assert(d@ =~= Seq::new(d.entries@.len(), |i: int| d.entries@[i]@));
    }
    Ok(d)
}

} // verus!
