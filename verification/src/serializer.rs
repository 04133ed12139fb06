//! The serializer: the canonical text of a document, stated mathematically,
//! and the executable function proved to emit exactly that text.

use vstd::prelude::*;

use crate::FFMetadata;
use crate::escape::escape;
use crate::escape::spec_escape;
use crate::grammar::magic;

verus! {

/// The serialized form of one pair: escaped key, `=`, escaped value,
/// newline.
pub open spec fn kv_line(p: (Seq<char>, Seq<char>)) -> Seq<char> {
    spec_escape(p.0) + seq!['='] + spec_escape(p.1) + seq!['\n']
}

/// The serialized form of a pair block: its pairs' lines in order.
pub open spec fn pairs_text(ps: Seq<(Seq<char>, Seq<char>)>) -> Seq<char>
    decreases ps.len(),
{
    if ps.len() == 0 {
        Seq::empty()
    } else {
        kv_line(ps[0]) + pairs_text(ps.skip(1))
    }
}

/// The serialized form of one section: its bracketed header line, its
/// pairs, and a closing blank line. The name is written as it is.
pub open spec fn section_text(sec: (Seq<char>, Seq<(Seq<char>, Seq<char>)>)) -> Seq<char> {
    seq!['['] + sec.0 + seq![']', '\n'] + pairs_text(sec.1) + seq!['\n']
}

/// The serialized form of a section list: the sections' texts in order.
pub open spec fn sections_text(ss: Seq<(Seq<char>, Seq<(Seq<char>, Seq<char>)>)>) -> Seq<char>
    decreases ss.len(),
{
    if ss.len() == 0 {
        Seq::empty()
    } else {
        section_text(ss[0]) + sections_text(ss.skip(1))
    }
}

/// The canonical text of a whole document: the magic line, the global
/// pairs, one blank line, then the sections. Comments are never part of the
/// model, so none are emitted.
pub open spec fn document_text(
    g: Seq<(Seq<char>, Seq<char>)>,
    ss: Seq<(Seq<char>, Seq<(Seq<char>, Seq<char>)>)>,
) -> Seq<char> {
    magic() + pairs_text(g) + seq!['\n'] + sections_text(ss)
}

/// Pair text distributes over concatenation.
pub proof fn lemma_pairs_text_append(a: Seq<(Seq<char>, Seq<char>)>, b: Seq<(Seq<char>, Seq<char>)>)
    ensures
        pairs_text(a + b) == pairs_text(a) + pairs_text(b),
    decreases a.len(),
{
    if a.len() == 0 {
        assert(a + b =~= b);
        assert(pairs_text(a) + pairs_text(b) =~= pairs_text(b));
    } else {
        lemma_pairs_text_append(a.skip(1), b);
        assert((a + b).skip(1) =~= a.skip(1) + b);
        assert((a + b)[0] == a[0]);
        assert(pairs_text(a + b) =~= pairs_text(a) + pairs_text(b));
    }
}

/// The pair text of a single pair is its line.
pub proof fn lemma_pairs_text_singleton(p: (Seq<char>, Seq<char>))
    ensures
        pairs_text(seq![p]) == kv_line(p),
{
    let s = seq![p];
    assert(s.skip(1) =~= Seq::<(Seq<char>, Seq<char>)>::empty());
    assert(pairs_text(Seq::<(Seq<char>, Seq<char>)>::empty()) == Seq::<char>::empty());
    assert(s[0] == p);
    assert(pairs_text(s) =~= kv_line(p));
}

/// Growing a pair prefix by one pair appends that pair's line.
pub proof fn lemma_pairs_text_snoc(ps: Seq<(Seq<char>, Seq<char>)>, i: int)
    requires
        0 <= i < ps.len(),
    ensures
        pairs_text(ps.subrange(0, i + 1)) == pairs_text(ps.subrange(0, i)) + kv_line(ps[i]),
{
    assert(ps.subrange(0, i + 1) =~= ps.subrange(0, i) + seq![ps[i]]);
    lemma_pairs_text_append(ps.subrange(0, i), seq![ps[i]]);
    lemma_pairs_text_singleton(ps[i]);
}

/// Section text distributes over concatenation.
pub proof fn lemma_sections_text_append(
    a: Seq<(Seq<char>, Seq<(Seq<char>, Seq<char>)>)>,
    b: Seq<(Seq<char>, Seq<(Seq<char>, Seq<char>)>)>,
)
    ensures
        sections_text(a + b) == sections_text(a) + sections_text(b),
    decreases a.len(),
{
    if a.len() == 0 {
        assert(a + b =~= b);
        assert(sections_text(a) + sections_text(b) =~= sections_text(b));
    } else {
        lemma_sections_text_append(a.skip(1), b);
        assert((a + b).skip(1) =~= a.skip(1) + b);
        assert((a + b)[0] == a[0]);
        assert(sections_text(a + b) =~= sections_text(a) + sections_text(b));
    }
}

/// The section text of a single section is its text.
pub proof fn lemma_sections_text_singleton(sec: (Seq<char>, Seq<(Seq<char>, Seq<char>)>))
    ensures
        sections_text(seq![sec]) == section_text(sec),
{
    let s = seq![sec];
    assert(s.skip(1) =~= Seq::<(Seq<char>, Seq<(Seq<char>, Seq<char>)>)>::empty());
    assert(sections_text(Seq::<(Seq<char>, Seq<(Seq<char>, Seq<char>)>)>::empty())
        == Seq::<char>::empty());
    assert(s[0] == sec);
    assert(sections_text(s) =~= section_text(sec));
}

/// Growing a section prefix by one section appends that section's text.
pub proof fn lemma_sections_text_snoc(ss: Seq<(Seq<char>, Seq<(Seq<char>, Seq<char>)>)>, i: int)
    requires
        0 <= i < ss.len(),
    ensures
        sections_text(ss.subrange(0, i + 1)) == sections_text(ss.subrange(0, i)) + section_text(
            ss[i],
        ),
{
    assert(ss.subrange(0, i + 1) =~= ss.subrange(0, i) + seq![ss[i]]);
    lemma_sections_text_append(ss.subrange(0, i), seq![ss[i]]);
    lemma_sections_text_singleton(ss[i]);
}

impl FFMetadata {
    /// Serializes the document to its canonical text. Total: every document
    /// has a text, keys and values being escaped as needed.
    pub fn serialize(&self) -> (r: String)
        ensures
            r@ == document_text(self.global_model(), self.sections_model()),
    {
        let ghost gm = self.global_model();
        let ghost sm = self.sections_model();
        let mut out = String::new();
        out.append(";FFMETADATA1\n");
        proof {
            reveal_strlit(";FFMETADATA1\n");
            assert(out@ =~= magic());
            assert(gm.subrange(0, 0) =~= Seq::<(Seq<char>, Seq<char>)>::empty());
            assert(out@ + Seq::<char>::empty() =~= out@);
        }
        let mut i: usize = 0;
        while i < self.global.len()
            invariant
                i <= self.global@.len(),
                gm == self.global_model(),
                sm == self.sections_model(),
                out@ == magic() + pairs_text(gm.subrange(0, i as int)),
            decreases self.global@.len() - i,
        {
            let ghost before = out@;
            let pair: &(String, String) = &self.global[i];
            let k = escape(pair.0.as_str());
            out.append(k.as_str());
            out.push('=');
            let v = escape(pair.1.as_str());
            out.append(v.as_str());
            out.push('\n');
            proof {
                assert(gm[i as int] == (self.global@[i as int].0@, self.global@[i as int].1@));
                assert(out@ =~= before + kv_line(gm[i as int]));
                lemma_pairs_text_snoc(gm, i as int);
                assert(out@ =~= magic() + pairs_text(gm.subrange(0, i as int + 1)));
            }
            i = i + 1;
        }
        out.push('\n');
        proof {
            assert(gm.subrange(0, self.global@.len() as int) =~= gm);
            assert(sm.subrange(0, 0) =~= Seq::<(Seq<char>, Seq<(Seq<char>, Seq<char>)>)>::empty());
            assert(out@ =~= magic() + pairs_text(gm) + seq!['\n']);
            assert(out@ + Seq::<char>::empty() =~= out@);
        }
        let mut si: usize = 0;
        while si < self.sections.len()
            invariant
                si <= self.sections@.len(),
                gm == self.global_model(),
                sm == self.sections_model(),
                out@ == magic() + pairs_text(gm) + seq!['\n'] + sections_text(
                    sm.subrange(0, si as int),
                ),
            decreases self.sections@.len() - si,
        {
            let ghost sec_before = out@;
            let sec: &(String, Vec<(String, String)>) = &self.sections[si];
            let ghost pm = crate::pairs_model(sec.1@);
            out.push('[');
            out.append(sec.0.as_str());
            out.push(']');
            out.push('\n');
            proof {
                assert(pm.subrange(0, 0) =~= Seq::<(Seq<char>, Seq<char>)>::empty());
                assert(out@ =~= sec_before + seq!['['] + sec.0@ + seq![']', '\n'] + pairs_text(
                    pm.subrange(0, 0),
                ));
            }
            let mut pj: usize = 0;
            while pj < sec.1.len()
                invariant
                    pj <= sec.1@.len(),
                    pm == crate::pairs_model(sec.1@),
                    out@ == sec_before + seq!['['] + sec.0@ + seq![']', '\n'] + pairs_text(
                        pm.subrange(0, pj as int),
                    ),
                decreases sec.1@.len() - pj,
            {
                let ghost before = out@;
                let pair: &(String, String) = &sec.1[pj];
                let k = escape(pair.0.as_str());
                out.append(k.as_str());
                out.push('=');
                let v = escape(pair.1.as_str());
                out.append(v.as_str());
                out.push('\n');
                proof {
                    assert(pm[pj as int] == (sec.1@[pj as int].0@, sec.1@[pj as int].1@));
                    assert(out@ =~= before + kv_line(pm[pj as int]));
                    lemma_pairs_text_snoc(pm, pj as int);
                    assert(out@ =~= sec_before + seq!['['] + sec.0@ + seq![']', '\n'] + pairs_text(
                        pm.subrange(0, pj as int + 1),
                    ));
                }
                pj = pj + 1;
            }
            out.push('\n');
            proof {
                assert(pm.subrange(0, sec.1@.len() as int) =~= pm);
                assert(sm[si as int] == (sec.0@, pm));
                assert(out@ =~= sec_before + section_text(sm[si as int]));
                lemma_sections_text_snoc(sm, si as int);
                assert(out@ =~= magic() + pairs_text(gm) + seq!['\n'] + sections_text(
                    sm.subrange(0, si as int + 1),
                ));
            }
            si = si + 1;
        }
        proof {
            assert(sm.subrange(0, self.sections@.len() as int) =~= sm);
        }
        out
    }
}

} // verus!
