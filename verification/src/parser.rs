//! The executable parser: one function per grammar production, each proved
//! to return exactly what the corresponding production in `grammar` yields.
//! Every production takes the text and the position (in characters) where it
//! is to start, and reports the position after what it consumed.

use vstd::prelude::*;

use crate::FFMetadata;
use crate::ParseError;
use crate::escape::reserved;
use crate::grammar::find_newline;
use crate::grammar::lemma_scan_document_bounds;
use crate::grammar::lemma_scan_line_bounds;
use crate::grammar::lemma_scan_name_chars_bounds;
use crate::grammar::lemma_scan_pairs_bounds;
use crate::grammar::lemma_scan_section_bounds;
use crate::grammar::lemma_scan_section_header_bounds;
use crate::grammar::lemma_scan_string_bounds;
use crate::grammar::magic;
use crate::grammar::scan_comment;
use crate::grammar::scan_document;
use crate::grammar::scan_header;
use crate::grammar::scan_kv;
use crate::grammar::scan_line;
use crate::grammar::scan_name_chars;
use crate::grammar::scan_pairs;
use crate::grammar::scan_section;
use crate::grammar::scan_section_header;
use crate::grammar::scan_sections;
use crate::grammar::scan_string;
use crate::pairs_model;
use crate::sections_model;

verus! {

/// The header production: the magic line, or nothing.
pub fn header(s: &str, pos: usize) -> (r: Option<usize>)
    requires
        pos as int <= s@.len(),
    ensures
        match r {
            Some(p) => scan_header(s@, pos as int) == Some(p as int),
            None => scan_header(s@, pos as int) is None,
        },
{
    let m: &str = ";FFMETADATA1\n";
    proof {
        reveal_strlit(";FFMETADATA1\n");
        assert(m@ =~= magic());
    }
    let n = s.unicode_len();
    if n - pos < 13 {
        return None;
    }
    let mut i: usize = 0;
    while i < 13
        invariant
            i <= 13,
            pos + 13 <= n,
            n == s@.len(),
            m@ == magic(),
            forall|j: int| 0 <= j < i ==> s@[pos + j] == magic()[j],
        decreases 13 - i,
    {
        if s.get_char(pos + i) != m.get_char(i) {
            proof {
                let sub = s@.subrange(pos as int, pos as int + 13);
                assert(sub[i as int] == s@[pos + i]);
                assert(sub != magic());
            }
            return None;
        }
        i = i + 1;
    }
    proof {
        assert(s@.subrange(pos as int, pos as int + 13) =~= magic());
    }
    Some(pos + 13)
}

/// The escaped-string production: greedy, total, decoding escapes as it
/// goes. Returns the stop position and the decoded text.
pub fn string(s: &str, pos: usize) -> (r: (usize, String))
    requires
        pos as int <= s@.len(),
    ensures
        r.0 as int == scan_string(s@, pos as int).0,
        r.1@ == scan_string(s@, pos as int).1,
{
    let n = s.unicode_len();
    let mut i: usize = pos;
    let mut out = String::new();
    loop
        invariant
            pos <= i <= n,
            n == s@.len(),
            scan_string(s@, pos as int).0 == scan_string(s@, i as int).0,
            scan_string(s@, pos as int).1 == out@ + scan_string(s@, i as int).1,
        ensures
            scan_string(s@, i as int) == (i as int, Seq::<char>::empty()),
        decreases n - i,
    {
        if i >= n {
            break;
        }
        let c = s.get_char(i);
        if !reserved(c) {
            let ghost old_out = out@;
            out.push(c);
            proof {
                assert(old_out + (seq![c] + scan_string(s@, i as int + 1).1) =~= out@ + scan_string(
                    s@,
                    i as int + 1,
                ).1);
            }
            i = i + 1;
        } else if c == '\\' && i + 1 < n {
            let c2 = s.get_char(i + 1);
            if reserved(c2) {
                let ghost old_out = out@;
                out.push(c2);
                proof {
                    assert(old_out + (seq![c2] + scan_string(s@, i as int + 2).1) =~= out@
                        + scan_string(s@, i as int + 2).1);
                }
                i = i + 2;
            } else {
                break;
            }
        } else {
            break;
        }
    }
    proof {
        assert(out@ + Seq::<char>::empty() =~= out@);
    }
    (i, out)
}

/// The key-value production: string, `=`, string, newline.
pub fn kv(s: &str, pos: usize) -> (r: Option<(usize, (String, String))>)
    requires
        pos as int <= s@.len(),
    ensures
        match r {
            Some((p, kvp)) => scan_kv(s@, pos as int) == Some((p as int, (kvp.0@, kvp.1@))),
            None => scan_kv(s@, pos as int) is None,
        },
{
    let n = s.unicode_len();
    let (p1, key) = string(s, pos);
    proof {
        lemma_scan_string_bounds(s@, pos as int);
    }
    if p1 < n && s.get_char(p1) == '=' {
        let (p2, value) = string(s, p1 + 1);
        proof {
            lemma_scan_string_bounds(s@, p1 as int + 1);
        }
        if p2 < n && s.get_char(p2) == '\n' {
            Some((p2 + 1, (key, value)))
        } else {
            None
        }
    } else {
        None
    }
}

/// The comment production: a `;` or `#` line discarded through its newline,
/// or a bare blank line.
pub fn comment(s: &str, pos: usize) -> (r: Option<usize>)
    requires
        pos as int <= s@.len(),
    ensures
        match r {
            Some(p) => scan_comment(s@, pos as int) == Some(p as int),
            None => scan_comment(s@, pos as int) is None,
        },
{
    let n = s.unicode_len();
    if pos >= n {
        return None;
    }
    let c = s.get_char(pos);
    if c == ';' || c == '#' {
        let mut j: usize = pos;
        loop
            invariant
                pos <= j <= n,
                n == s@.len(),
                pos < n,
                s@[pos as int] == ';' || s@[pos as int] == '#',
                find_newline(s@, pos as int) == find_newline(s@, j as int),
            decreases n - j,
        {
            if j >= n {
                return None;
            }
            if s.get_char(j) == '\n' {
                return Some(j + 1);
            }
            j = j + 1;
        }
    } else if c == '\n' {
        Some(pos + 1)
    } else {
        None
    }
}

/// One line of a pair block: a comment if it matches, else a key-value pair.
pub fn comment_or_kv(s: &str, pos: usize) -> (r: Option<(usize, Option<(String, String)>)>)
    requires
        pos as int <= s@.len(),
    ensures
        match r {
            Some((p, item)) => scan_line(s@, pos as int) == Some(
                (
                    p as int,
                    match item {
                        Some(kvp) => Some((kvp.0@, kvp.1@)),
                        None => None,
                    },
                ),
            ),
            None => scan_line(s@, pos as int) is None,
        },
{
    match comment(s, pos) {
        Some(p) => Some((p, None)),
        None => match kv(s, pos) {
            Some((p, kvp)) => Some((p, Some(kvp))),
            None => None,
        },
    }
}

/// A pair block: comment-or-pair lines, as many as match, keeping the pairs
/// in order and dropping the comments.
pub fn kvs(s: &str, pos: usize) -> (r: (usize, Vec<(String, String)>))
    requires
        pos as int <= s@.len(),
    ensures
        r.0 as int == scan_pairs(s@, pos as int).0,
        pairs_model(r.1@) == scan_pairs(s@, pos as int).1,
{
    let mut i: usize = pos;
    let mut acc: Vec<(String, String)> = Vec::new();
    proof {
        assert(pairs_model(acc@) =~= Seq::<(Seq<char>, Seq<char>)>::empty());
    }
    loop
        invariant
            pos <= i,
            i as int <= s@.len(),
            scan_pairs(s@, pos as int).0 == scan_pairs(s@, i as int).0,
            scan_pairs(s@, pos as int).1 == pairs_model(acc@) + scan_pairs(s@, i as int).1,
        ensures
            scan_pairs(s@, i as int) == (i as int, Seq::<(Seq<char>, Seq<char>)>::empty()),
        decreases s@.len() - i,
    {
        proof {
            lemma_scan_line_bounds(s@, i as int);
        }
        match comment_or_kv(s, i) {
            None => {
                break;
            },
            Some((p, item)) => {
                match item {
                    Some(kvp) => {
                        let ghost kmodel = (kvp.0@, kvp.1@);
                        let ghost old_acc = acc@;
                        acc.push(kvp);
                        proof {
                            assert(pairs_model(acc@) =~= pairs_model(old_acc).push(kmodel));
                            assert(pairs_model(old_acc) + (seq![kmodel] + scan_pairs(
                                s@,
                                p as int,
                            ).1) =~= pairs_model(acc@) + scan_pairs(s@, p as int).1);
                        }
                    },
                    None => {},
                }
                i = p;
            },
        }
    }
    proof {
        assert(pairs_model(acc@) + Seq::<(Seq<char>, Seq<char>)>::empty() =~= pairs_model(acc@));
    }
    (i, acc)
}

/// The section-header production: `[`, a non-empty name without `]` or
/// newline, `]`, newline. Returns the position after the newline and the
/// name.
pub fn section_header(s: &str, pos: usize) -> (r: Option<(usize, String)>)
    requires
        pos as int <= s@.len(),
    ensures
        match r {
            Some((p, name)) => scan_section_header(s@, pos as int) == Some((p as int, name@)),
            None => scan_section_header(s@, pos as int) is None,
        },
{
    let n = s.unicode_len();
    if pos >= n {
        return None;
    }
    if s.get_char(pos) != '[' {
        return None;
    }
    let mut j: usize = pos + 1;
    let mut name = String::new();
    loop
        invariant
            pos + 1 <= j <= n,
            n == s@.len(),
            pos < n,
            s@[pos as int] == '[',
            scan_name_chars(s@, pos as int + 1).0 == scan_name_chars(s@, j as int).0,
            scan_name_chars(s@, pos as int + 1).1 == name@ + scan_name_chars(s@, j as int).1,
        ensures
            scan_name_chars(s@, j as int) == (j as int, Seq::<char>::empty()),
        decreases n - j,
    {
        if j >= n {
            break;
        }
        let c = s.get_char(j);
        if c == ']' || c == '\n' {
            break;
        }
        let ghost old_name = name@;
        name.push(c);
        proof {
            assert(old_name + (seq![c] + scan_name_chars(s@, j as int + 1).1) =~= name@
                + scan_name_chars(s@, j as int + 1).1);
        }
        j = j + 1;
    }
    proof {
        assert(name@ + Seq::<char>::empty() =~= name@);
        lemma_scan_name_chars_bounds(s@, pos as int + 1);
    }
    if j == pos + 1 {
        return None;
    }
    if j < n && n - j >= 2 {
        if s.get_char(j) == ']' && s.get_char(j + 1) == '\n' {
            return Some((j + 2, name));
        }
    }
    None
}

/// The section production: a header followed by its pair block.
pub fn section(s: &str, pos: usize) -> (r: Option<(usize, (String, Vec<(String, String)>))>)
    requires
        pos as int <= s@.len(),
    ensures
        match r {
            Some((p, sec)) => scan_section(s@, pos as int) == Some(
                (p as int, (sec.0@, pairs_model(sec.1@))),
            ),
            None => scan_section(s@, pos as int) is None,
        },
{
    match section_header(s, pos) {
        Some((p, name)) => {
            proof {
                lemma_scan_section_header_bounds(s@, pos as int);
            }
            let (q, pairs) = kvs(s, p);
            Some((q, (name, pairs)))
        },
        None => None,
    }
}

/// The document production: header, global pair block, then sections.
pub fn ffmetadata(s: &str, pos: usize) -> (r: Option<(usize, FFMetadata)>)
    requires
        pos as int <= s@.len(),
    ensures
        match r {
            Some((p, doc)) => scan_document(s@, pos as int) == Some(
                (p as int, (doc.global_model(), doc.sections_model())),
            ),
            None => scan_document(s@, pos as int) is None,
        },
{
    match header(s, pos) {
        None => None,
        Some(p0) => {
            let (p1, global) = kvs(s, p0);
            proof {
                lemma_scan_pairs_bounds(s@, p0 as int);
            }
            let mut i: usize = p1;
            let mut secs: Vec<(String, Vec<(String, String)>)> = Vec::new();
            proof {
                assert(sections_model(secs@) =~= Seq::<
                    (Seq<char>, Seq<(Seq<char>, Seq<char>)>),
                >::empty());
            }
            loop
                invariant
                    i as int <= s@.len(),
                    pos as int <= s@.len(),
                    scan_header(s@, pos as int) == Some(p0 as int),
                    p0 as int <= s@.len(),
                    scan_pairs(s@, p0 as int).0 == p1 as int,
                    pairs_model(global@) == scan_pairs(s@, p0 as int).1,
                    p1 as int <= s@.len(),
                    scan_sections(s@, p1 as int).0 == scan_sections(s@, i as int).0,
                    scan_sections(s@, p1 as int).1 == sections_model(secs@) + scan_sections(
                        s@,
                        i as int,
                    ).1,
                ensures
                    scan_sections(s@, i as int) == (
                        i as int,
                        Seq::<(Seq<char>, Seq<(Seq<char>, Seq<char>)>)>::empty(),
                    ),
                decreases s@.len() - i,
            {
                proof {
                    lemma_scan_section_bounds(s@, i as int);
                }
                match section(s, i) {
                    None => {
                        break;
                    },
                    Some((p, sec)) => {
                        let ghost smodel = (sec.0@, pairs_model(sec.1@));
                        let ghost old_secs = secs@;
                        secs.push(sec);
                        proof {
                            assert(sections_model(secs@) =~= sections_model(old_secs).push(smodel));
                            assert(sections_model(old_secs) + (seq![smodel] + scan_sections(
                                s@,
                                p as int,
                            ).1) =~= sections_model(secs@) + scan_sections(s@, p as int).1);
                        }
                        i = p;
                    },
                }
            }
            proof {
                assert(sections_model(secs@) + Seq::<
                    (Seq<char>, Seq<(Seq<char>, Seq<char>)>),
                >::empty() =~= sections_model(secs@));
            }
            Some((i, FFMetadata { global, sections: secs }))
        },
    }
}

impl FFMetadata {
    /// Parses a complete document. Succeeds exactly when the document
    /// grammar matches and consumes the whole input; a bad header is
    /// `Malformatted` with the failing position, and a well-formed document
    /// followed by anything else is `Remaining` with exactly the unconsumed
    /// rest.
    pub fn parse(s: &str) -> (r: Result<FFMetadata, ParseError>)
        ensures
            match scan_document(s@, 0) {
                Some((p, dm)) => {
                    if p == s@.len() {
                        r matches Ok(doc) && doc.global_model() == dm.0 && doc.sections_model()
                            == dm.1
                    } else {
                        r matches Err(ParseError::Remaining(rem)) && rem@ == s@.skip(p)
                    }
                },
                None => r matches Err(ParseError::Malformatted(p)) && p == 0,
            },
    {
        proof {
            lemma_scan_document_bounds(s@, 0);
        }
        match ffmetadata(s, 0) {
            Some((p, doc)) => {
                let n = s.unicode_len();
                if p == n {
                    Ok(doc)
                } else {
                    let rem = s.substring_char(p, n);
                    proof {
                        assert(rem@ =~= s@.skip(p as int));
                    }
                    Err(ParseError::Remaining(rem.to_owned()))
                }
            },
            None => Err(ParseError::Malformatted(0)),
        }
    }
}

} // verus!
