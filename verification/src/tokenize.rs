//! Byte-level whitespace tokenization of corpus lines.  A sentence is one
//! line; tokens are the maximal runs of non-whitespace bytes.
use vstd::prelude::*;

verus! {

/// Whitespace bytes: space, TAB, LF, VT, FF, CR.
pub open spec fn is_ws(b: u8) -> bool {
    b == 32 || b == 9 || b == 10 || b == 11 || b == 12 || b == 13
}

pub fn byte_is_ws(b: u8) -> (r: bool)
    ensures
        r == is_ws(b),
{
    b == 32 || b == 9 || b == 10 || b == 11 || b == 12 || b == 13
}

/// Tokenizer state after consuming the first `i` bytes of `s`:
/// the finished tokens, and the pending (unfinished) token.
pub open spec fn tok_upto(s: Seq<u8>, i: int) -> (Seq<Seq<u8>>, Seq<u8>)
    decreases i,
{
    if i <= 0 {
        (Seq::<Seq<u8>>::empty(), Seq::<u8>::empty())
    } else {
        let prev = tok_upto(s, i - 1);
        let b = s[i - 1];
        if is_ws(b) {
            if prev.1.len() > 0 {
                (prev.0.push(prev.1), Seq::<u8>::empty())
            } else {
                prev
            }
        } else {
            (prev.0, prev.1.push(b))
        }
    }
}

/// The whitespace-separated tokens of one byte line.
pub open spec fn spec_tokens(s: Seq<u8>) -> Seq<Seq<u8>> {
    let t = tok_upto(s, s.len() as int);
    if t.1.len() > 0 {
        t.0.push(t.1)
    } else {
        t.0
    }
}

/// Splits a line into tokens; the result is pinned to `spec_tokens`.
pub fn tokenize(line: &Vec<u8>) -> (r: Vec<Vec<u8>>)
    ensures
        r.deep_view() == spec_tokens(line@),
{
    let mut out: Vec<Vec<u8>> = Vec::new();
    let mut cur: Vec<u8> = Vec::new();
    let mut i: usize = 0;
    proof {
        assert(out.deep_view() =~= tok_upto(line@, 0).0);
    }
    while i < line.len()
        invariant
            i <= line.len(),
            out.deep_view() == tok_upto(line@, i as int).0,
            cur@ == tok_upto(line@, i as int).1,
        decreases line.len() - i,
    {
        let ghost prev = tok_upto(line@, i as int);
        let b = line[i];
        if byte_is_ws(b) {
            if cur.len() > 0 {
                let ghost old_dv = out.deep_view();
                out.push(cur);
                cur = Vec::new();
                proof {
                    assert(out.deep_view() =~~= old_dv.push(prev.1));
                }
            }
        } else {
            cur.push(b);
        }
        i = i + 1;
    }
    if cur.len() > 0 {
        let ghost old_dv = out.deep_view();
        out.push(cur);
        proof {
            assert(out.deep_view() =~~= old_dv.push(tok_upto(line@, line@.len() as int).1));
        }
    }
    out
}

} // verus!
