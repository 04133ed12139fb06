//! The round-trip law: the canonical text of a document parses back to
//! exactly the document's pairs and sections, consuming the whole text.

use vstd::prelude::*;

use crate::escape::is_reserved;
use crate::escape::spec_escape;
use crate::grammar::lemma_scan_escaped;
use crate::grammar::magic;
use crate::grammar::scan_comment;
use crate::grammar::scan_document;
use crate::grammar::scan_header;
use crate::grammar::scan_kv;
use crate::grammar::scan_line;
use crate::grammar::scan_name_chars;
use crate::grammar::scan_pairs;
use crate::grammar::scan_section;
use crate::grammar::scan_section_header;
use crate::grammar::scan_sections;
use crate::grammar::scan_string;
use crate::serializer::document_text;
use crate::serializer::kv_line;
use crate::serializer::pairs_text;
use crate::serializer::section_text;
use crate::serializer::sections_text;

verus! {

/// A section name the serializer can write back legally: non-empty, free of
/// `]` and newline (which the bracket syntax cannot hold), and free of `=`
/// (with an `=` the bracketed line could read back as a key-value pair).
pub open spec fn wf_name(name: Seq<char>) -> bool {
    name.len() > 0 && forall|i: int|
        0 <= i < name.len() ==> name[i] != ']' && name[i] != '\n' && name[i] != '='
}

/// Every section name of the list is well formed.
pub open spec fn wf_sections(ss: Seq<(Seq<char>, Seq<(Seq<char>, Seq<char>)>)>) -> bool {
    forall|i: int| 0 <= i < ss.len() ==> wf_name(#[trigger] ss[i].0)
}

/// No production of the document grammar matches at this position: neither
/// a comment-or-pair line nor a section header. The document production
/// consumes nothing from here on, so whatever stands here stays unconsumed.
pub open spec fn stops_document(t: Seq<char>, pos: int) -> bool {
    scan_line(t, pos) is None && scan_section_header(t, pos) is None
}

/// Where a region holds no `=` and ends at a newline not led by a
/// backslash, the string production stops inside it, and not at an `=`.
proof fn lemma_scan_no_eq(t: Seq<char>, pos: int, j: int)
    requires
        0 <= pos <= j < t.len(),
        t[j] == '\n',
        forall|i: int| pos <= i <= j ==> t[i] != '=',
        j == pos || t[j - 1] != '\\',
    ensures
        pos <= scan_string(t, pos).0 <= j,
        t[scan_string(t, pos).0] != '=',
    decreases j - pos,
{
    if pos == j {
    } else if !is_reserved(t[pos]) {
        lemma_scan_no_eq(t, pos + 1, j);
    } else if t[pos] == '\\' && pos + 1 < t.len() && is_reserved(t[pos + 1]) {
        assert(pos + 1 != j);
        lemma_scan_no_eq(t, pos + 2, j);
    } else {
    }
}

/// Where a region holds no `]` and no newline and a `]` or newline stands
/// right after it, the name production consumes exactly that region.
proof fn lemma_scan_name_chars_exact(t: Seq<char>, pos: int, end: int)
    requires
        0 <= pos <= end < t.len(),
        forall|i: int| pos <= i < end ==> t[i] != ']' && t[i] != '\n',
        t[end] == ']' || t[end] == '\n',
    ensures
        scan_name_chars(t, pos).0 == end,
        scan_name_chars(t, pos).1 == t.subrange(pos, end),
    decreases end - pos,
{
    if pos == end {
        assert(t.subrange(pos, end) =~= Seq::<char>::empty());
    } else {
        lemma_scan_name_chars_exact(t, pos + 1, end);
        assert(seq![t[pos]] + t.subrange(pos + 1, end) =~= t.subrange(pos, end));
    }
}

/// A serialized pair line reads back as exactly that pair.
proof fn lemma_scan_line_kv(t: Seq<char>, pos: int, p: (Seq<char>, Seq<char>))
    requires
        0 <= pos,
        pos + kv_line(p).len() <= t.len(),
        t.subrange(pos, pos + kv_line(p).len()) == kv_line(p),
    ensures
        scan_line(t, pos) == Some((pos + kv_line(p).len(), Some(p))),
{
    let e0 = spec_escape(p.0);
    let e1 = spec_escape(p.1);
    let line = kv_line(p);
    let l = line.len();
    assert(l == e0.len() + 1 + e1.len() + 1);
    assert forall|i: int| 0 <= i < l implies t[pos + i] == line[i] by {
        assert(t.subrange(pos, pos + l)[i] == t[pos + i]);
    }
    // the line's first character is never a comment lead
    if p.0.len() == 0 {
        assert(e0.len() == 0);
        assert(line[0] == '=');
    } else if is_reserved(p.0[0]) {
        assert(e0 == seq!['\\', p.0[0]] + spec_escape(p.0.skip(1)));
        assert(line[0] == '\\');
    } else {
        assert(e0 == seq![p.0[0]] + spec_escape(p.0.skip(1)));
        assert(line[0] == p.0[0]);
        assert(!is_reserved(line[0]));
    }
    assert(t[pos] != ';' && t[pos] != '#' && t[pos] != '\n');
    assert(scan_comment(t, pos) is None);
    // the key region
    assert(line[e0.len() as int] == '=');
    assert(t.subrange(pos, pos + e0.len()) =~= e0) by {
        assert forall|i: int| 0 <= i < e0.len() implies t.subrange(pos, pos + e0.len())[i]
            == e0[i] by {
            assert(t[pos + i] == line[i]);
            assert(line[i] == e0[i]);
        }
    }
    lemma_scan_escaped(p.0, t, pos);
    let p1 = pos + e0.len();
    assert(scan_string(t, pos) == (p1, p.0));
    assert(t[p1] == '=');
    // the value region
    assert(t.subrange(p1 + 1, p1 + 1 + e1.len()) =~= e1) by {
        assert forall|i: int| 0 <= i < e1.len() implies t.subrange(p1 + 1, p1 + 1 + e1.len())[i]
            == e1[i] by {
            assert(t[pos + (e0.len() + 1 + i)] == line[e0.len() + 1 + i]);
            assert(line[e0.len() + 1 + i] == e1[i]);
        }
    }
    assert(line[l - 1] == '\n');
    assert(t[p1 + 1 + e1.len()] == '\n');
    lemma_scan_escaped(p.1, t, p1 + 1);
    let p2 = p1 + 1 + e1.len();
    assert(scan_string(t, p1 + 1) == (p2, p.1));
    assert(scan_kv(t, pos) == Some((pos + l, (p.0, p.1))));
    assert((p.0, p.1) == p);
}

/// At the end of the input no line matches.
proof fn lemma_scan_line_none_at_eof(t: Seq<char>, pos: int)
    requires
        0 <= pos == t.len(),
    ensures
        scan_line(t, pos) is None,
{
    assert(scan_comment(t, pos) is None);
    assert(scan_string(t, pos).0 == pos);
    assert(scan_kv(t, pos) is None);
}

/// At a well-formed section header line neither a comment nor a key-value
/// pair matches.
proof fn lemma_scan_line_none_at_header(t: Seq<char>, pos: int, name: Seq<char>)
    requires
        0 <= pos,
        wf_name(name),
        pos + name.len() + 3 <= t.len(),
        t[pos] == '[',
        forall|i: int| 0 <= i < name.len() ==> t[pos + 1 + i] == name[i],
        t[pos + 1 + name.len()] == ']',
        t[pos + 2 + name.len()] == '\n',
    ensures
        scan_line(t, pos) is None,
{
    assert(scan_comment(t, pos) is None);
    let j = pos + 2 + name.len();
    assert forall|i: int| pos <= i <= j implies t[i] != '=' by {
        if i == pos {
        } else if i <= pos + name.len() {
            assert(t[i] == name[i - pos - 1]);
        }
    }
    assert(t[j - 1] == ']');
    lemma_scan_no_eq(t, pos, j);
    assert(scan_kv(t, pos) is None);
}

/// A serialized pair block reads back as exactly those pairs, the scan going
/// on at the text after the block.
proof fn lemma_scan_pairs_over_text(t: Seq<char>, pos: int, ps: Seq<(Seq<char>, Seq<char>)>)
    requires
        0 <= pos,
        pos + pairs_text(ps).len() <= t.len(),
        t.subrange(pos, pos + pairs_text(ps).len()) == pairs_text(ps),
    ensures
        scan_pairs(t, pos).0 == scan_pairs(t, pos + pairs_text(ps).len()).0,
        scan_pairs(t, pos).1 == ps + scan_pairs(t, pos + pairs_text(ps).len()).1,
    decreases ps.len(),
{
    let pt = pairs_text(ps);
    if ps.len() == 0 {
        assert(ps + scan_pairs(t, pos).1 =~= scan_pairs(t, pos).1);
    } else {
        let line = kv_line(ps[0]);
        let rest = pairs_text(ps.skip(1));
        assert(pt == line + rest);
        assert forall|i: int| 0 <= i < pt.len() implies t[pos + i] == pt[i] by {
            assert(t.subrange(pos, pos + pt.len())[i] == t[pos + i]);
        }
        assert(t.subrange(pos, pos + line.len()) =~= line) by {
            assert forall|i: int| 0 <= i < line.len() implies t.subrange(pos, pos + line.len())[i]
                == line[i] by {
                assert(t[pos + i] == pt[i]);
                assert(pt[i] == line[i]);
            }
        }
        lemma_scan_line_kv(t, pos, ps[0]);
        let mid = pos + line.len();
        assert(t.subrange(mid, mid + rest.len()) =~= rest) by {
            assert forall|i: int| 0 <= i < rest.len() implies t.subrange(mid, mid + rest.len())[i]
                == rest[i] by {
                assert(t[pos + (line.len() + i)] == pt[line.len() + i]);
                assert(pt[line.len() + i] == rest[i]);
            }
        }
        assert(line.len() >= 2);
        lemma_scan_pairs_over_text(t, mid, ps.skip(1));
        let end = pos + pt.len();
        assert(mid + rest.len() == end);
        assert(seq![ps[0]] + (ps.skip(1) + scan_pairs(t, end).1) =~= ps + scan_pairs(t, end).1);
    }
}

/// A blank line inside a pair block is consumed and contributes nothing.
proof fn lemma_scan_pairs_blank(t: Seq<char>, pos: int)
    requires
        0 <= pos < t.len(),
        t[pos] == '\n',
    ensures
        scan_pairs(t, pos) == scan_pairs(t, pos + 1),
{
    assert(scan_comment(t, pos) == Some(pos + 1));
    assert(scan_line(t, pos) == Some((pos + 1, None::<(Seq<char>, Seq<char>)>)));
}

/// Where no line matches, the pair block ends there, empty.
proof fn lemma_scan_pairs_stop(t: Seq<char>, pos: int)
    requires
        0 <= pos <= t.len(),
        scan_line(t, pos) is None,
    ensures
        scan_pairs(t, pos) == (pos, Seq::<(Seq<char>, Seq<char>)>::empty()),
{
}

/// Where serialized sections fill the rest of the text, no comment-or-pair
/// line matches at their start (it is a header line, or the end).
proof fn lemma_scan_line_none_at_sections(
    t: Seq<char>,
    pos: int,
    ss: Seq<(Seq<char>, Seq<(Seq<char>, Seq<char>)>)>,
    end: int,
)
    requires
        0 <= pos,
        pos + sections_text(ss).len() == end <= t.len(),
        t.subrange(pos, end) == sections_text(ss),
        wf_sections(ss),
        stops_document(t, end),
    ensures
        scan_line(t, pos) is None,
{
    if ss.len() == 0 {
        assert(pos == end);
    } else {
        let st = sections_text(ss);
        let name = ss[0].0;
        assert(wf_name(name));
        let head = section_text(ss[0]);
        assert(st == head + sections_text(ss.skip(1)));
        assert forall|i: int| 0 <= i < st.len() implies t[pos + i] == st[i] by {
            assert(t.subrange(pos, end)[i] == t[pos + i]);
        }
        assert(head[0] == '[');
        assert(t[pos + 0] == st[0]);
        assert(t[pos] == '[');
        assert forall|i: int| 0 <= i < name.len() implies t[pos + 1 + i] == name[i] by {
            assert(t[pos + (1 + i)] == st[1 + i]);
            assert(st[1 + i] == head[1 + i]);
            assert(head[1 + i] == name[i]);
        }
        assert(head[1 + name.len() as int] == ']');
        assert(t[pos + (1 + name.len())] == st[1 + name.len() as int]);
        assert(t[pos + 1 + name.len()] == ']');
        assert(head[2 + name.len() as int] == '\n');
        assert(t[pos + (2 + name.len())] == st[2 + name.len() as int]);
        assert(t[pos + 2 + name.len()] == '\n');
        lemma_scan_line_none_at_header(t, pos, name);
    }
}

/// A serialized pair block followed by its blank line and then by
/// serialized sections reads back as exactly those pairs, the scan stopping
/// right after the blank line.
proof fn lemma_scan_pair_block(
    t: Seq<char>,
    pos: int,
    ps: Seq<(Seq<char>, Seq<char>)>,
    rest_ss: Seq<(Seq<char>, Seq<(Seq<char>, Seq<char>)>)>,
    end: int,
)
    requires
        0 <= pos,
        pos + pairs_text(ps).len() + 1 + sections_text(rest_ss).len() == end <= t.len(),
        t.subrange(pos, end) == pairs_text(ps) + seq!['\n'] + sections_text(rest_ss),
        wf_sections(rest_ss),
        stops_document(t, end),
    ensures
        scan_pairs(t, pos).0 == pos + pairs_text(ps).len() + 1,
        scan_pairs(t, pos).1 == ps,
{
    let pt = pairs_text(ps);
    let whole = pt + seq!['\n'] + sections_text(rest_ss);
    assert forall|i: int| 0 <= i < whole.len() implies t[pos + i] == whole[i] by {
        assert(t.subrange(pos, end)[i] == t[pos + i]);
    }
    assert(t.subrange(pos, pos + pt.len()) =~= pt) by {
        assert forall|i: int| 0 <= i < pt.len() implies t.subrange(pos, pos + pt.len())[i]
            == pt[i] by {
            assert(t[pos + i] == whole[i]);
            assert(whole[i] == pt[i]);
        }
    }
    lemma_scan_pairs_over_text(t, pos, ps);
    let pb = pos + pt.len();
    assert(whole[pt.len() as int] == '\n');
    assert(t[pb] == '\n');
    lemma_scan_pairs_blank(t, pb);
    assert(t.subrange(pb + 1, end) =~= sections_text(rest_ss)) by {
        assert forall|i: int| 0 <= i < sections_text(rest_ss).len() implies t.subrange(
            pb + 1,
            end,
        )[i] == sections_text(rest_ss)[i] by {
            assert(t[pos + (pt.len() + 1 + i)] == whole[pt.len() + 1 + i]);
            assert(whole[pt.len() + 1 + i] == sections_text(rest_ss)[i]);
        }
    }
    lemma_scan_line_none_at_sections(t, pb + 1, rest_ss, end);
    lemma_scan_pairs_stop(t, pb + 1);
    assert(ps + Seq::<(Seq<char>, Seq<char>)>::empty() =~= ps);
}

/// Serialized sections filling the rest of the text read back as exactly
/// those sections, consuming everything.
proof fn lemma_scan_sections_over_text(
    t: Seq<char>,
    pos: int,
    ss: Seq<(Seq<char>, Seq<(Seq<char>, Seq<char>)>)>,
    end: int,
)
    requires
        0 <= pos,
        pos + sections_text(ss).len() == end <= t.len(),
        t.subrange(pos, end) == sections_text(ss),
        wf_sections(ss),
        stops_document(t, end),
    ensures
        scan_sections(t, pos).0 == end,
        scan_sections(t, pos).1 == ss,
    decreases ss.len(),
{
    if ss.len() == 0 {
        assert(pos == end);
        assert(scan_section_header(t, pos) is None);
        assert(scan_sections(t, pos).1 =~= ss);
    } else {
        let sec = ss[0];
        let name = sec.0;
        let nl = name.len() as int;
        let head = section_text(sec);
        let st = sections_text(ss);
        let rest = sections_text(ss.skip(1));
        assert(st == head + rest);
        assert forall|i: int| 0 <= i < st.len() implies t[pos + i] == st[i] by {
            assert(t.subrange(pos, end)[i] == t[pos + i]);
        }
        assert(head.len() == nl + 4 + pairs_text(sec.1).len());
        // the header line
        assert(head[0] == '[');
        assert(t[pos + 0] == st[0]);
        assert(t[pos] == '[');
        assert forall|i: int| pos + 1 <= i < pos + 1 + nl implies t[i] != ']' && t[i] != '\n' by {
            assert(t[pos + (i - pos)] == st[i - pos]);
            assert(st[i - pos] == head[i - pos]);
            assert(head[i - pos] == name[i - pos - 1]);
            assert(wf_name(name));
        }
        assert(head[1 + nl] == ']');
        assert(t[pos + (1 + nl)] == st[1 + nl]);
        assert(t[pos + 1 + nl] == ']');
        assert(head[2 + nl] == '\n');
        assert(t[pos + (2 + nl)] == st[2 + nl]);
        assert(t[pos + 2 + nl] == '\n');
        lemma_scan_name_chars_exact(t, pos + 1, pos + 1 + nl);
        assert(t.subrange(pos + 1, pos + 1 + nl) =~= name) by {
            assert forall|i: int| 0 <= i < nl implies t.subrange(pos + 1, pos + 1 + nl)[i]
                == name[i] by {
                assert(t[pos + (1 + i)] == st[1 + i]);
                assert(st[1 + i] == head[1 + i]);
                assert(head[1 + i] == name[i]);
            }
        }
        assert(scan_section_header(t, pos) == Some((pos + nl + 3, name)));
        // the pair block with its closing blank line, then the later sections
        let ph = pos + nl + 3;
        assert(t.subrange(ph, end) =~= pairs_text(sec.1) + seq!['\n'] + rest) by {
            let tail = pairs_text(sec.1) + seq!['\n'] + rest;
            assert forall|i: int| 0 <= i < tail.len() implies t.subrange(ph, end)[i]
                == tail[i] by {
                assert(t[pos + (nl + 3 + i)] == st[nl + 3 + i]);
                if i < pairs_text(sec.1).len() + 1 {
                    assert(st[nl + 3 + i] == head[nl + 3 + i]);
                    assert(head[nl + 3 + i] == tail[i]);
                } else {
                    assert(st[nl + 3 + i] == rest[i - (pairs_text(sec.1).len() + 1)]);
                    assert(tail[i] == rest[i - (pairs_text(sec.1).len() + 1)]);
                }
            }
        }
        assert(wf_sections(ss.skip(1))) by {
            assert forall|i: int| 0 <= i < ss.skip(1).len() implies wf_name(
                #[trigger] ss.skip(1)[i].0,
            ) by {
                assert(ss.skip(1)[i] == ss[i + 1]);
            }
        }
        lemma_scan_pair_block(t, ph, sec.1, ss.skip(1), end);
        let p = pos + head.len();
        assert(scan_pairs(t, ph).0 == p);
        assert(scan_section(t, pos) == Some((p, (name, sec.1))));
        assert((name, sec.1) == sec);
        // the later sections
        assert(t.subrange(p, end) =~= rest) by {
            assert forall|i: int| 0 <= i < rest.len() implies t.subrange(p, end)[i] == rest[i] by {
                assert(t[pos + (head.len() + i)] == st[head.len() + i]);
                assert(st[head.len() + i] == rest[i]);
            }
        }
        lemma_scan_sections_over_text(t, p, ss.skip(1), end);
        assert(pos < p <= t.len());
        assert(seq![sec] + ss.skip(1) =~= ss);
    }
}

/// Where a text begins with the canonical form of a document and no grammar
/// production matches at the position right after it, the document
/// production consumes exactly the canonical prefix and yields exactly the
/// document.
proof fn lemma_document_text_scan(
    t: Seq<char>,
    g: Seq<(Seq<char>, Seq<char>)>,
    ss: Seq<(Seq<char>, Seq<(Seq<char>, Seq<char>)>)>,
    end: int,
)
    requires
        document_text(g, ss).len() == end <= t.len(),
        t.subrange(0, end) == document_text(g, ss),
        wf_sections(ss),
        stops_document(t, end),
    ensures
        scan_document(t, 0) == Some((end, (g, ss))),
{
    let d = document_text(g, ss);
    assert(d == magic() + pairs_text(g) + seq!['\n'] + sections_text(ss));
    assert forall|i: int| 0 <= i < d.len() implies t[i] == d[i] by {
        assert(t.subrange(0, end)[i] == t[i]);
    }
    assert(t.subrange(0, 13) =~= magic()) by {
        assert forall|i: int| 0 <= i < 13 implies t.subrange(0, 13)[i] == magic()[i] by {
            assert(t[i] == d[i]);
            assert(d[i] == magic()[i]);
        }
    }
    assert(scan_header(t, 0) == Some(13int));
    assert(t.subrange(13, end) =~= pairs_text(g) + seq!['\n'] + sections_text(ss)) by {
        let tail = pairs_text(g) + seq!['\n'] + sections_text(ss);
        assert forall|i: int| 0 <= i < tail.len() implies t.subrange(13, end)[i] == tail[i] by {
            assert(t[13 + i] == d[13 + i]);
            assert(d[13 + i] == tail[i]);
        }
    }
    lemma_scan_pair_block(t, 13, g, ss, end);
    let p1 = 13 + pairs_text(g).len() + 1;
    assert(t.subrange(p1 as int, end) =~= sections_text(ss)) by {
        assert forall|i: int| 0 <= i < sections_text(ss).len() implies t.subrange(
            p1 as int,
            end,
        )[i] == sections_text(ss)[i] by {
            assert(t[p1 + i] == d[p1 + i]);
            assert(d[p1 + i] == sections_text(ss)[i]);
        }
    }
    lemma_scan_sections_over_text(t, p1 as int, ss, end);
}

/// The round-trip law: the canonical text of any document whose section
/// names are well formed parses back, in full, to exactly its global pairs
/// and its sections — names, pair order and content. Comments do not arise:
/// the canonical text has none.
pub proof fn lemma_serialize_parse_round_trip(
    g: Seq<(Seq<char>, Seq<char>)>,
    ss: Seq<(Seq<char>, Seq<(Seq<char>, Seq<char>)>)>,
)
    requires
        wf_sections(ss),
    ensures
        ({
            let t = document_text(g, ss);
            scan_document(t, 0) == Some((t.len() as int, (g, ss)))
        }),
{
    let t = document_text(g, ss);
    let end = t.len() as int;
    assert(t.subrange(0, end) =~= t);
    lemma_scan_line_none_at_eof(t, end);
    assert(scan_section_header(t, end) is None);
    lemma_document_text_scan(t, g, ss, end);
}

/// The trailing-input law: a text that begins with the canonical form of a
/// well-formed document and goes on with anything at which no grammar
/// production matches parses to exactly that document, leaving exactly the
/// appended text unconsumed.
pub proof fn lemma_trailing_input_detected(
    t: Seq<char>,
    g: Seq<(Seq<char>, Seq<char>)>,
    ss: Seq<(Seq<char>, Seq<(Seq<char>, Seq<char>)>)>,
)
    requires
        wf_sections(ss),
        document_text(g, ss).len() <= t.len(),
        t.subrange(0, document_text(g, ss).len() as int) == document_text(g, ss),
        stops_document(t, document_text(g, ss).len() as int),
    ensures
        scan_document(t, 0) == Some((document_text(g, ss).len() as int, (g, ss))),
{
    lemma_document_text_scan(t, g, ss, document_text(g, ss).len() as int);
}

} // verus!
