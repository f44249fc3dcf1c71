//! Splitting captured command output into lines, the way a buffered line
//! reader does: lines end at a newline byte, a carriage return directly
//! before a newline is stripped, and a trailing newline yields no extra
//! empty line.

use vstd::prelude::*;

verus! {

/// Prepends partial line `c` onto the lines `rest` of what follows: it
/// extends the first following line, or stands alone, or vanishes when it
/// is empty and nothing follows.
pub open spec fn glued(c: Seq<u8>, rest: Seq<Seq<u8>>) -> Seq<Seq<u8>> {
    if rest.len() == 0 {
        if c.len() == 0 {
            Seq::empty()
        } else {
            seq![c]
        }
    } else {
        seq![c + rest[0]] + rest.drop_first()
    }
}

/// The lines of `s` from position `i` on.
pub open spec fn lines_from(s: Seq<u8>, i: int) -> Seq<Seq<u8>>
    decreases s.len() - i,
{
    if i < 0 || i >= s.len() {
        Seq::empty()
    } else if s[i] == 10 {
        seq![Seq::<u8>::empty()] + lines_from(s, i + 1)
    } else if s[i] == 13 && i + 1 < s.len() && s[i + 1] == 10 {
        seq![Seq::<u8>::empty()] + lines_from(s, i + 2)
    } else {
        glued(seq![s[i]], lines_from(s, i + 1))
    }
}

/// The lines of `s`.
pub open spec fn lines_of(s: Seq<u8>) -> Seq<Seq<u8>> {
    lines_from(s, 0)
}

/// The mathematical values of a vector of lines.
pub open spec fn seqs_of(ls: Seq<Vec<u8>>) -> Seq<Seq<u8>> {
    ls.map_values(|l: Vec<u8>| l@)
}

proof fn lemma_glued_nil(rest: Seq<Seq<u8>>)
    ensures
        glued(Seq::<u8>::empty(), rest) == rest,
{
    if rest.len() == 0 {
        assert(glued(Seq::<u8>::empty(), rest) =~= rest);
    } else {
        assert(Seq::<u8>::empty() + rest[0] =~= rest[0]);
        assert(seq![rest[0]] + rest.drop_first() =~= rest);
    }
}

proof fn lemma_glued_newline(c: Seq<u8>, rest: Seq<Seq<u8>>)
    ensures
        glued(c, seq![Seq::<u8>::empty()] + rest) == seq![c] + rest,
{
    let whole = seq![Seq::<u8>::empty()] + rest;
    assert(whole.len() >= 1);
    assert(whole[0] =~= Seq::<u8>::empty());
    assert(c + whole[0] =~= c);
    assert(whole.drop_first() =~= rest);
    assert(seq![c + whole[0]] + whole.drop_first() =~= seq![c] + rest);
}

proof fn lemma_glued_assoc(c: Seq<u8>, d: Seq<u8>, rest: Seq<Seq<u8>>)
    requires
        d.len() > 0,
    ensures
        glued(c, glued(d, rest)) == glued(c + d, rest),
{
    if rest.len() == 0 {
        assert(glued(d, rest) =~= seq![d]);
        assert((c + d).len() > 0);
        assert(seq![d].drop_first() =~= Seq::<Seq<u8>>::empty());
        assert(glued(c, seq![d]) =~= seq![c + d]);
        assert(glued(c + d, rest) =~= seq![c + d]);
    } else {
        let inner = glued(d, rest);
        assert(inner[0] == d + rest[0]);
        assert(inner.drop_first() =~= rest.drop_first());
        assert(c + (d + rest[0]) =~= (c + d) + rest[0]);
        assert(glued(c, inner) =~= glued(c + d, rest));
    }
}

/// Splits captured output into its lines.
pub fn split_lines(s: &Vec<u8>) -> (r: Vec<Vec<u8>>)
    ensures
        seqs_of(r@) == lines_of(s@),
{
    let mut done: Vec<Vec<u8>> = Vec::new();
    let mut cur: Vec<u8> = Vec::new();
    let mut i: usize = 0;
    proof {
        assert(seqs_of(done@) + glued(cur@, lines_from(s@, 0)) =~= glued(cur@, lines_from(s@, 0)));
    }
    while i < s.len()
        invariant
            i <= s@.len(),
            lines_of(s@) == seqs_of(done@) + glued(cur@, lines_from(s@, i as int)),
        decreases s@.len() - i,
    {
        let b = s[i];
        let crlf = b == 13 && i + 1 < s.len() && s[i + 1] == 10;
        if b == 10 || crlf {
            proof {
                let rest = lines_from(s@, i as int + (if crlf { 2int } else { 1int }));
                lemma_glued_newline(cur@, rest);
                lemma_glued_nil(rest);
                assert(seqs_of(done@) + (seq![cur@] + rest) =~= seqs_of(done@.push(cur)) + glued(
                    Seq::<u8>::empty(),
                    rest,
                ));
            }
            done.push(cur);
            cur = Vec::new();
            if crlf {
                i = i + 2;
            } else {
                i = i + 1;
            }
        } else {
            proof {
                let rest = lines_from(s@, i as int + 1);
                lemma_glued_assoc(cur@, seq![s@[i as int]], rest);
                assert(cur@ + seq![s@[i as int]] =~= cur@.push(s@[i as int]));
            }
            cur.push(b);
            i = i + 1;
        }
    }
    if cur.len() > 0 {
        proof {
            assert(seqs_of(done@) + glued(cur@, lines_from(s@, i as int)) =~= seqs_of(
                done@.push(cur),
            ));
        }
        done.push(cur);
    } else {
        proof {
            assert(seqs_of(done@) + glued(cur@, lines_from(s@, i as int)) =~= seqs_of(done@));
        }
    }
    done
}

/// The first line of captured output, if the output holds any.
pub fn first_line(s: &Vec<u8>) -> (r: Option<Vec<u8>>)
    ensures
        (match r {
            Some(l) => lines_of(s@).len() > 0 && l@ == lines_of(s@)[0],
            None => lines_of(s@).len() == 0,
        }),
{
    let mut ls = split_lines(s);
    if ls.len() == 0 {
        None
    } else {
        let l = ls.remove(0);
        Some(l)
    }
}

} // verus!
