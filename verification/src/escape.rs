//! The escaping rules: which characters are reserved, how a key or value is
//! written with backslashes, and how escaped text reads back.

use vstd::prelude::*;

verus! {

/// A character that cannot stand bare inside a key or a value: it must be
/// preceded by a backslash.
pub open spec fn is_reserved(c: char) -> bool {
    c == '=' || c == ';' || c == '#' || c == '\\' || c == '\n'
}

/// Executable membership test for the reserved set.
pub fn reserved(c: char) -> (b: bool)
    ensures
        b == is_reserved(c),
{
    c == '=' || c == ';' || c == '#' || c == '\\' || c == '\n'
}

/// The escaped form of a text: a backslash stands before every reserved
/// character, and every other character is kept as it is.
pub open spec fn spec_escape(s: Seq<char>) -> Seq<char>
    decreases s.len(),
{
    if s.len() == 0 {
        Seq::empty()
    } else if is_reserved(s[0]) {
        seq!['\\', s[0]] + spec_escape(s.skip(1))
    } else {
        seq![s[0]] + spec_escape(s.skip(1))
    }
}

/// Reading escaped text back: a backslash and the character after it decode
/// to that character alone; any other character decodes to itself.
pub open spec fn spec_unescape(s: Seq<char>) -> Seq<char>
    decreases s.len(),
{
    if s.len() == 0 {
        Seq::empty()
    } else if s[0] == '\\' && s.len() >= 2 {
        seq![s[1]] + spec_unescape(s.skip(2))
    } else {
        seq![s[0]] + spec_unescape(s.skip(1))
    }
}

/// Escaping distributes over concatenation.
pub proof fn lemma_escape_append(a: Seq<char>, b: Seq<char>)
    ensures
        spec_escape(a + b) == spec_escape(a) + spec_escape(b),
    decreases a.len(),
{
    if a.len() == 0 {
        assert(a + b =~= b);
        assert(spec_escape(a) + spec_escape(b) =~= spec_escape(b));
    } else {
        lemma_escape_append(a.skip(1), b);
        assert((a + b).skip(1) =~= a.skip(1) + b);
        assert((a + b)[0] == a[0]);
        if is_reserved(a[0]) {
            assert(spec_escape(a + b) =~= spec_escape(a) + spec_escape(b));
        } else {
            assert(spec_escape(a + b) =~= spec_escape(a) + spec_escape(b));
        }
    }
}

/// Unescaping undoes escaping: every text read back from its escaped form is
/// itself.
pub proof fn lemma_unescape_escape(s: Seq<char>)
    ensures
        spec_unescape(spec_escape(s)) == s,
    decreases s.len(),
{
    if s.len() == 0 {
    } else {
        lemma_unescape_escape(s.skip(1));
        if is_reserved(s[0]) {
            let e = seq!['\\', s[0]] + spec_escape(s.skip(1));
            assert(spec_escape(s) == e);
            assert(e[0] == '\\' && e.len() >= 2 && e[1] == s[0]);
            assert(e.skip(2) =~= spec_escape(s.skip(1)));
            assert(spec_unescape(e) == seq![s[0]] + spec_unescape(spec_escape(s.skip(1))));
            assert(seq![s[0]] + s.skip(1) =~= s);
        } else {
            let e = seq![s[0]] + spec_escape(s.skip(1));
            assert(spec_escape(s) == e);
            assert(e[0] == s[0]);
            assert(e[0] != '\\');
            assert(e.skip(1) =~= spec_escape(s.skip(1)));
            assert(spec_unescape(e) == seq![s[0]] + spec_unescape(spec_escape(s.skip(1))));
            assert(seq![s[0]] + s.skip(1) =~= s);
        }
    }
}

/// The escaped form of a single character, written out.
pub proof fn lemma_escape_singleton(c: char)
    ensures
        is_reserved(c) ==> spec_escape(seq![c]) == seq!['\\', c],
        !is_reserved(c) ==> spec_escape(seq![c]) == seq![c],
{
    let s = seq![c];
    assert(s.skip(1) =~= Seq::<char>::empty());
    assert(spec_escape(Seq::<char>::empty()) == Seq::<char>::empty());
    assert(s[0] == c);
    if is_reserved(c) {
        assert(spec_escape(s) =~= seq!['\\', c]);
    } else {
        assert(spec_escape(s) =~= seq![c]);
    }
}

/// Escapes a text for inclusion in a serialized document: a backslash is put
/// before every reserved character.
pub fn escape(s: &str) -> (r: String)
    ensures
        r@ == spec_escape(s@),
{
    let n = s.unicode_len();
    let mut out = String::new();
    let mut i: usize = 0;
    while i < n
        invariant
            i <= n,
            n == s@.len(),
            out@ == spec_escape(s@.subrange(0, i as int)),
        decreases n - i,
    {
        let c = s.get_char(i);
        let ghost prefix = s@.subrange(0, i as int);
        let ghost old_out = out@;
        if reserved(c) {
            out.push('\\');
        }
        out.push(c);
        proof {
            lemma_escape_append(prefix, seq![c]);
            lemma_escape_singleton(c);
            assert(s@.subrange(0, i + 1 as int) =~= prefix + seq![c]);
            if is_reserved(c) {
                assert(out@ =~= old_out + seq!['\\', c]);
            } else {
                assert(out@ =~= old_out + seq![c]);
            }
        }
        i = i + 1;
    }
    proof {
        assert(s@.subrange(0, n as int) =~= s@);
    }
    out
}

} // verus!
