//! The grammar, stated mathematically: each production as a function from a
//! character sequence and a position to what it consumes and what it yields.
//! The executable parser is proved to return exactly these values.

use vstd::prelude::*;

use crate::escape::is_reserved;
use crate::escape::spec_escape;

verus! {

/// The magic header line that every document must begin with.
pub open spec fn magic() -> Seq<char> {
    seq![';', 'F', 'F', 'M', 'E', 'T', 'A', 'D', 'A', 'T', 'A', '1', '\n']
}

/// The header production: the magic line, taken literally.
pub open spec fn scan_header(s: Seq<char>, pos: int) -> Option<int> {
    if pos + magic().len() <= s.len() && s.subrange(pos, pos + magic().len()) == magic() {
        Some(pos + magic().len())
    } else {
        None
    }
}

/// The escaped-string production. It is greedy and total: it consumes
/// ordinary characters literally and a backslash together with the reserved
/// character after it as that character, and stops at the first reserved
/// character that is not such an escape.
pub open spec fn scan_string(s: Seq<char>, pos: int) -> (int, Seq<char>)
    decreases s.len() - pos,
{
    if pos < 0 || pos >= s.len() {
        (pos, Seq::empty())
    } else if !is_reserved(s[pos]) {
        let (p, t) = scan_string(s, pos + 1);
        (p, seq![s[pos]] + t)
    } else if s[pos] == '\\' && pos + 1 < s.len() && is_reserved(s[pos + 1]) {
        let (p, t) = scan_string(s, pos + 2);
        (p, seq![s[pos + 1]] + t)
    } else {
        (pos, Seq::empty())
    }
}

/// The key-value production: a string, `=`, a string, and a terminating
/// newline. Yields the decoded key and value.
pub open spec fn scan_kv(s: Seq<char>, pos: int) -> Option<(int, (Seq<char>, Seq<char>))> {
    let (p1, key) = scan_string(s, pos);
    if p1 < s.len() && s[p1] == '=' {
        let (p2, value) = scan_string(s, p1 + 1);
        if p2 < s.len() && s[p2] == '\n' {
            Some((p2 + 1, (key, value)))
        } else {
            None
        }
    } else {
        None
    }
}

/// The position of the first newline at or after `pos`, if there is one.
pub open spec fn find_newline(s: Seq<char>, pos: int) -> Option<int>
    decreases s.len() - pos,
{
    if pos < 0 || pos >= s.len() {
        None
    } else if s[pos] == '\n' {
        Some(pos)
    } else {
        find_newline(s, pos + 1)
    }
}

/// The comment production: a line led by `;` or `#` whose text is discarded,
/// or a bare blank line. Either consumes through one newline.
pub open spec fn scan_comment(s: Seq<char>, pos: int) -> Option<int> {
    if 0 <= pos < s.len() {
        if s[pos] == ';' || s[pos] == '#' {
            match find_newline(s, pos) {
                Some(j) => Some(j + 1),
                None => None,
            }
        } else if s[pos] == '\n' {
            Some(pos + 1)
        } else {
            None
        }
    } else {
        None
    }
}

/// One line of a pair block: a comment (yielding nothing) if it matches,
/// else a key-value pair.
pub open spec fn scan_line(s: Seq<char>, pos: int) -> Option<(int, Option<(Seq<char>, Seq<char>)>)> {
    match scan_comment(s, pos) {
        Some(p) => Some((p, None)),
        None => match scan_kv(s, pos) {
            Some((p, kv)) => Some((p, Some(kv))),
            None => None,
        },
    }
}

/// Zero or more comment-or-pair lines: comments are dropped, pairs are kept
/// in order. Stops at the first line that is neither.
pub open spec fn scan_pairs(s: Seq<char>, pos: int) -> (int, Seq<(Seq<char>, Seq<char>)>)
    decreases s.len() - pos,
{
    match scan_line(s, pos) {
        Some((p, item)) => {
            if pos < p <= s.len() {
                let (q, rest) = scan_pairs(s, p);
                match item {
                    Some(kv) => (q, seq![kv] + rest),
                    None => (q, rest),
                }
            } else {
                (pos, Seq::empty())
            }
        },
        None => (pos, Seq::empty()),
    }
}

/// The characters a section name may hold, taken greedily: anything but `]`
/// and newline.
pub open spec fn scan_name_chars(s: Seq<char>, pos: int) -> (int, Seq<char>)
    decreases s.len() - pos,
{
    if pos < 0 || pos >= s.len() {
        (pos, Seq::empty())
    } else if s[pos] == ']' || s[pos] == '\n' {
        (pos, Seq::empty())
    } else {
        let (p, t) = scan_name_chars(s, pos + 1);
        (p, seq![s[pos]] + t)
    }
}

/// The section-header production: `[`, a non-empty name, `]`, newline.
pub open spec fn scan_section_header(s: Seq<char>, pos: int) -> Option<(int, Seq<char>)> {
    if 0 <= pos < s.len() && s[pos] == '[' {
        let (p, name) = scan_name_chars(s, pos + 1);
        if name.len() > 0 && p + 1 < s.len() && s[p] == ']' && s[p + 1] == '\n' {
            Some((p + 2, name))
        } else {
            None
        }
    } else {
        None
    }
}

/// The section production: a header followed by its pair block.
pub open spec fn scan_section(s: Seq<char>, pos: int) -> Option<
    (int, (Seq<char>, Seq<(Seq<char>, Seq<char>)>)),
> {
    match scan_section_header(s, pos) {
        Some((p, name)) => {
            let (q, pairs) = scan_pairs(s, p);
            Some((q, (name, pairs)))
        },
        None => None,
    }
}

/// Zero or more sections. Stops where no section header matches.
pub open spec fn scan_sections(s: Seq<char>, pos: int) -> (
    int,
    Seq<(Seq<char>, Seq<(Seq<char>, Seq<char>)>)>,
)
    decreases s.len() - pos,
{
    match scan_section(s, pos) {
        Some((p, sec)) => {
            if pos < p <= s.len() {
                let (q, rest) = scan_sections(s, p);
                (q, seq![sec] + rest)
            } else {
                (pos, Seq::empty())
            }
        },
        None => (pos, Seq::empty()),
    }
}

/// The document production: the magic header, the global pair block, then
/// the sections. Yields the position after the last thing consumed.
pub open spec fn scan_document(s: Seq<char>, pos: int) -> Option<
    (int, (Seq<(Seq<char>, Seq<char>)>, Seq<(Seq<char>, Seq<(Seq<char>, Seq<char>)>)>)),
> {
    match scan_header(s, pos) {
        Some(p0) => {
            let (p1, global) = scan_pairs(s, p0);
            let (p2, sections) = scan_sections(s, p1);
            Some((p2, (global, sections)))
        },
        None => None,
    }
}

/// The string production never moves backwards and never leaves the input.
pub proof fn lemma_scan_string_bounds(s: Seq<char>, pos: int)
    requires
        0 <= pos <= s.len(),
    ensures
        pos <= scan_string(s, pos).0 <= s.len(),
    decreases s.len() - pos,
{
    if pos >= s.len() {
    } else if !is_reserved(s[pos]) {
        lemma_scan_string_bounds(s, pos + 1);
    } else if s[pos] == '\\' && pos + 1 < s.len() && is_reserved(s[pos + 1]) {
        lemma_scan_string_bounds(s, pos + 2);
    } else {
    }
}

/// A found newline lies at or after the start and inside the input.
pub proof fn lemma_find_newline_bounds(s: Seq<char>, pos: int)
    requires
        0 <= pos,
    ensures
        match find_newline(s, pos) {
            Some(j) => pos <= j < s.len() && s[j] == '\n',
            None => true,
        },
    decreases s.len() - pos,
{
    if pos >= s.len() {
    } else if s[pos] == '\n' {
    } else {
        lemma_find_newline_bounds(s, pos + 1);
    }
}

/// A successful line consumes at least one character and stays inside the
/// input.
pub proof fn lemma_scan_line_bounds(s: Seq<char>, pos: int)
    requires
        0 <= pos <= s.len(),
    ensures
        match scan_line(s, pos) {
            Some((p, _)) => pos < p <= s.len(),
            None => true,
        },
{
    lemma_find_newline_bounds(s, pos);
    lemma_scan_string_bounds(s, pos);
    let (p1, _) = scan_string(s, pos);
    if p1 < s.len() && s[p1] == '=' {
        lemma_scan_string_bounds(s, p1 + 1);
    }
}

/// A pair block never moves backwards and never leaves the input.
pub proof fn lemma_scan_pairs_bounds(s: Seq<char>, pos: int)
    requires
        0 <= pos <= s.len(),
    ensures
        pos <= scan_pairs(s, pos).0 <= s.len(),
    decreases s.len() - pos,
{
    lemma_scan_line_bounds(s, pos);
    match scan_line(s, pos) {
        Some((p, _)) => {
            lemma_scan_pairs_bounds(s, p);
        },
        None => {},
    }
}

/// A successful section header consumes at least one character and stays
/// inside the input.
pub proof fn lemma_scan_name_chars_bounds(s: Seq<char>, pos: int)
    requires
        0 <= pos <= s.len(),
    ensures
        pos <= scan_name_chars(s, pos).0 <= s.len(),
        scan_name_chars(s, pos).1.len() == scan_name_chars(s, pos).0 - pos,
    decreases s.len() - pos,
{
    if pos >= s.len() {
    } else if s[pos] == ']' || s[pos] == '\n' {
    } else {
        lemma_scan_name_chars_bounds(s, pos + 1);
    }
}

/// A successful section header consumes at least one character and stays
/// inside the input.
pub proof fn lemma_scan_section_header_bounds(s: Seq<char>, pos: int)
    requires
        0 <= pos <= s.len(),
    ensures
        match scan_section_header(s, pos) {
            Some((p, _)) => pos < p <= s.len(),
            None => true,
        },
{
    if 0 <= pos < s.len() && s[pos] == '[' {
        lemma_scan_name_chars_bounds(s, pos + 1);
    }
}

/// A successful section consumes at least one character and stays inside the
/// input.
pub proof fn lemma_scan_section_bounds(s: Seq<char>, pos: int)
    requires
        0 <= pos <= s.len(),
    ensures
        match scan_section(s, pos) {
            Some((p, _)) => pos < p <= s.len(),
            None => true,
        },
{
    match scan_section_header(s, pos) {
        Some((p, _)) => {
            lemma_scan_name_chars_bounds(s, pos + 1);
            lemma_scan_pairs_bounds(s, p);
        },
        None => {},
    }
}

/// The sections production never moves backwards and never leaves the input.
pub proof fn lemma_scan_sections_bounds(s: Seq<char>, pos: int)
    requires
        0 <= pos <= s.len(),
    ensures
        pos <= scan_sections(s, pos).0 <= s.len(),
    decreases s.len() - pos,
{
    lemma_scan_section_bounds(s, pos);
    match scan_section(s, pos) {
        Some((p, _)) => {
            lemma_scan_sections_bounds(s, p);
        },
        None => {},
    }
}

/// A successful document scan ends inside the input.
pub proof fn lemma_scan_document_bounds(s: Seq<char>, pos: int)
    requires
        0 <= pos <= s.len(),
    ensures
        match scan_document(s, pos) {
            Some((p, _)) => pos <= p <= s.len(),
            None => true,
        },
{
    match scan_header(s, pos) {
        Some(p0) => {
            let (p1, _) = scan_pairs(s, p0);
            lemma_scan_pairs_bounds(s, p0);
            lemma_scan_sections_bounds(s, p1);
        },
        None => {},
    }
}

/// Escaped text scans as one string production: the scan consumes exactly
/// the escaped form and decodes it back to the original text, provided what
/// follows (if anything) is a reserved character other than a backslash.
/// In particular, with the escaped text standing alone, `escape` never emits
/// a reserved character that the scanner would stop at.
pub proof fn lemma_scan_escaped(s: Seq<char>, t: Seq<char>, pos: int)
    requires
        0 <= pos,
        pos + spec_escape(s).len() <= t.len(),
        t.subrange(pos, pos + spec_escape(s).len()) == spec_escape(s),
        pos + spec_escape(s).len() == t.len() || (is_reserved(t[pos + spec_escape(s).len()])
            && t[pos + spec_escape(s).len()] != '\\'),
    ensures
        scan_string(t, pos).0 == pos + spec_escape(s).len(),
        scan_string(t, pos).1 == s,
    decreases s.len(),
{
    let e = spec_escape(s);
    if s.len() == 0 {
        assert(e.len() == 0);
        assert(scan_string(t, pos).1 =~= s);
    } else if is_reserved(s[0]) {
        let e1 = spec_escape(s.skip(1));
        assert(e == seq!['\\', s[0]] + e1);
        assert(t[pos] == e[0]);
        assert(e[0] == '\\');
        assert(t[pos + 1] == e[1]);
        assert(e[1] == s[0]);
        assert(t.subrange(pos + 2, pos + 2 + e1.len()) =~= e1) by {
            assert forall|i: int| 0 <= i < e1.len() implies t.subrange(
                pos + 2,
                pos + 2 + e1.len(),
            )[i] == e1[i] by {
                assert(t[pos + 2 + i] == t.subrange(pos, pos + e.len())[2 + i]);
                assert(e[2 + i] == e1[i]);
            }
        }
        lemma_scan_escaped(s.skip(1), t, pos + 2);
        assert(seq![s[0]] + s.skip(1) =~= s);
    } else {
        let e1 = spec_escape(s.skip(1));
        assert(e == seq![s[0]] + e1);
        assert(t[pos] == e[0]);
        assert(e[0] == s[0]);
        assert(!is_reserved(t[pos]));
        assert(t.subrange(pos + 1, pos + 1 + e1.len()) =~= e1) by {
            assert forall|i: int| 0 <= i < e1.len() implies t.subrange(
                pos + 1,
                pos + 1 + e1.len(),
            )[i] == e1[i] by {
                assert(t[pos + 1 + i] == t.subrange(pos, pos + e.len())[1 + i]);
                assert(e[1 + i] == e1[i]);
            }
        }
        lemma_scan_escaped(s.skip(1), t, pos + 1);
        assert(seq![s[0]] + s.skip(1) =~= s);
    }
}

/// The escaped form of any text, standing alone, scans fully as a single
/// string production and decodes back to that text: no reserved character in
/// it is left bare.
pub proof fn lemma_escape_scans_clean(s: Seq<char>)
    ensures
        scan_string(spec_escape(s), 0).0 == spec_escape(s).len(),
        scan_string(spec_escape(s), 0).1 == s,
{
    let e = spec_escape(s);
    assert(e.subrange(0, e.len() as int) =~= e);
    lemma_scan_escaped(s, e, 0);
}

} // verus!
