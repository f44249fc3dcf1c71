//! The persistent derivation cache: a JSON object mapping derivation path
//! strings to owning attribute strings. The encoder emits a compact object
//! escaping quotes and backslashes; the parser accepts the same object form
//! with optional whitespace between tokens. Strings holding control bytes
//! cannot be represented and fail encoding, which the run treats as a fatal
//! cache failure.

use vstd::prelude::*;

use crate::store::Record;

verus! {

/// The escape of one byte: a quote or backslash gets a backslash prefix.
pub open spec fn escb(b: u8) -> Seq<u8> {
    if b == 34 || b == 92 {
        seq![92u8, b]
    } else {
        seq![b]
    }
}

/// The escaped form of a string's bytes.
pub open spec fn esc(s: Seq<u8>) -> Seq<u8>
    decreases s.len(),
{
    if s.len() == 0 {
        Seq::empty()
    } else {
        escb(s[0]) + esc(s.drop_first())
    }
}

/// Representable content: no control bytes.
pub open spec fn clean(s: Seq<u8>) -> bool {
    forall|i: int| 0 <= i < s.len() ==> s[i] >= 32
}

/// Whether every record's strings are representable.
pub open spec fn all_clean(rs: Seq<Record>) -> bool {
    forall|i: int| 0 <= i < rs.len() ==> clean(rs[i].drv@) && clean(rs[i].attr@)
}

/// One quoted string.
pub open spec fn enc_string(s: Seq<u8>) -> Seq<u8> {
    seq![34u8] + esc(s) + seq![34u8]
}

/// One `"derivation":"attribute"` member.
pub open spec fn enc_member(drv: Seq<u8>, attr: Seq<u8>) -> Seq<u8> {
    enc_string(drv) + seq![58u8] + enc_string(attr)
}

/// The members from index `i` on, comma-separated.
pub open spec fn enc_from(rs: Seq<Record>, i: int) -> Seq<u8>
    decreases rs.len() - i,
{
    if i < 0 || i >= rs.len() {
        Seq::empty()
    } else {
        let one = enc_member(rs[i].drv@, rs[i].attr@);
        if i + 1 < rs.len() {
            one + seq![44u8] + enc_from(rs, i + 1)
        } else {
            one
        }
    }
}

/// The whole cache object.
pub open spec fn enc_cache(rs: Seq<Record>) -> Seq<u8> {
    seq![123u8] + enc_from(rs, 0) + seq![125u8]
}

proof fn lemma_esc_snoc(t: Seq<u8>, b: u8)
    ensures
        esc(t.push(b)) == esc(t) + escb(b),
    decreases t.len(),
{
    if t.len() == 0 {
        assert(t.push(b)[0] == b);
        assert(t.push(b).drop_first() =~= Seq::<u8>::empty());
        assert(esc(t) + escb(b) =~= escb(b) + esc(Seq::<u8>::empty()));
    } else {
        assert(t.push(b)[0] == t[0]);
        assert(t.push(b).drop_first() =~= t.drop_first().push(b));
        lemma_esc_snoc(t.drop_first(), b);
        assert(escb(t[0]) + (esc(t.drop_first()) + escb(b)) =~= (escb(t[0]) + esc(t.drop_first()))
            + escb(b));
    }
}

/// Returns whether the string holds no control byte.
fn is_clean(s: &Vec<u8>) -> (r: bool)
    ensures
        r == clean(s@),
{
    let mut i: usize = 0;
    while i < s.len()
        invariant
            i <= s@.len(),
            forall|j: int| 0 <= j < i ==> s@[j] >= 32,
        decreases s@.len() - i,
    {
        if s[i] < 32 {
            return false;
        }
        i = i + 1;
    }
    true
}

/// Appends one quoted, escaped string.
fn push_string(out: &mut Vec<u8>, s: &Vec<u8>)
    requires
        clean(s@),
    ensures
        final(out)@ == old(out)@ + enc_string(s@),
{
    out.push(34);
    let mut i: usize = 0;
    proof {
        assert(esc(s@.subrange(0, 0)) =~= Seq::<u8>::empty());
        assert(out@ =~= old(out)@ + seq![34u8] + esc(s@.subrange(0, 0)));
    }
    while i < s.len()
        invariant
            i <= s@.len(),
            clean(s@),
            out@ == old(out)@ + seq![34u8] + esc(s@.subrange(0, i as int)),
        decreases s@.len() - i,
    {
        let b = s[i];
        proof {
            assert(s@.subrange(0, i + 1) =~= s@.subrange(0, i as int).push(s@[i as int]));
            lemma_esc_snoc(s@.subrange(0, i as int), s@[i as int]);
        }
        if b == 34 || b == 92 {
            out.push(92);
            out.push(b);
            proof {
                assert(out@ =~= old(out)@ + seq![34u8] + esc(s@.subrange(0, i + 1)));
            }
        } else {
            out.push(b);
            proof {
                assert(out@ =~= old(out)@ + seq![34u8] + esc(s@.subrange(0, i + 1)));
            }
        }
        i = i + 1;
    }
    out.push(34);
    proof {
        assert(s@.subrange(0, s@.len() as int) =~= s@);
        assert(out@ =~= old(out)@ + enc_string(s@));
    }
}

/// Appends one member.
fn push_member(out: &mut Vec<u8>, drv: &Vec<u8>, attr: &Vec<u8>)
    requires
        clean(drv@),
        clean(attr@),
    ensures
        final(out)@ == old(out)@ + enc_member(drv@, attr@),
{
    push_string(out, drv);
    out.push(58);
    push_string(out, attr);
    proof {
        assert(out@ =~= old(out)@ + enc_member(drv@, attr@));
    }
}

/// Serializes the records as the cache object, or yields nothing where a
/// string holds a control byte and cannot be represented.
pub fn encode_cache(rs: &Vec<Record>) -> (r: Option<Vec<u8>>)
    ensures
        r.is_some() == all_clean(rs@),
        (match r {
            Some(v) => v@ == enc_cache(rs@),
            None => !all_clean(rs@),
        }),
{
    let n = rs.len();
    let mut i: usize = 0;
    while i < n
        invariant
            n == rs@.len(),
            i <= n,
            forall|j: int| #![auto] 0 <= j < i ==> clean(rs@[j].drv@) && clean(rs@[j].attr@),
        decreases n - i,
    {
        if !is_clean(&rs[i].drv) || !is_clean(&rs[i].attr) {
            return None;
        }
        i = i + 1;
    }
    let mut out: Vec<u8> = Vec::new();
    out.push(123);
    if n == 0 {
        out.push(125);
        proof {
            assert(out@ =~= enc_cache(rs@));
        }
        return Some(out);
    }
    push_member(&mut out, &rs[0].drv, &rs[0].attr);
    proof {
        if n > 1 {
            assert(seq![123u8] + enc_from(rs@, 0) =~= out@ + (seq![44u8] + enc_from(rs@, 1)));
        } else {
            assert(seq![123u8] + enc_from(rs@, 0) =~= out@);
        }
    }
    let mut k: usize = 1;
    while k < n
        invariant
            n == rs@.len(),
            1 <= k <= n,
            forall|j: int| #![auto] 0 <= j < n ==> clean(rs@[j].drv@) && clean(rs@[j].attr@),
            seq![123u8] + enc_from(rs@, 0) == out@ + (if k < n {
                seq![44u8] + enc_from(rs@, k as int)
            } else {
                Seq::<u8>::empty()
            }),
        decreases n - k,
    {
        out.push(44);
        push_member(&mut out, &rs[k].drv, &rs[k].attr);
        proof {
            if k + 1 < n {
                assert(seq![123u8] + enc_from(rs@, 0) =~= out@ + (seq![44u8] + enc_from(
                    rs@,
                    k + 1,
                )));
            } else {
                assert(seq![123u8] + enc_from(rs@, 0) =~= out@);
            }
        }
        k = k + 1;
    }
    proof {
        assert(seq![123u8] + enc_from(rs@, 0) =~= out@);
    }
    out.push(125);
    proof {
        assert(out@ =~= enc_cache(rs@));
    }
    Some(out)
}

/// JSON whitespace.
pub open spec fn jws(b: u8) -> bool {
    b == 9 || b == 10 || b == 13 || b == 32
}

/// The first position at or after `i` holding no JSON whitespace.
pub open spec fn p_skip(s: Seq<u8>, i: int) -> int
    decreases s.len() - i,
{
    if 0 <= i < s.len() && jws(s[i]) {
        p_skip(s, i + 1)
    } else {
        i
    }
}

/// A string body after its opening quote: the unescaped content and the
/// position after the closing quote. Only `\"` and `\\` escapes are
/// accepted, and no control byte may occur.
pub open spec fn p_str(s: Seq<u8>, i: int) -> Option<(Seq<u8>, int)>
    decreases s.len() - i,
{
    if i < 0 || i >= s.len() {
        None
    } else if s[i] == 34 {
        Some((Seq::empty(), i + 1))
    } else if s[i] == 92 {
        if i + 1 < s.len() && (s[i + 1] == 34 || s[i + 1] == 92) {
            match p_str(s, i + 2) {
                Some((t, j)) => Some((seq![s[i + 1]] + t, j)),
                None => None,
            }
        } else {
            None
        }
    } else if s[i] < 32 {
        None
    } else {
        match p_str(s, i + 1) {
            Some((t, j)) => Some((seq![s[i]] + t, j)),
            None => None,
        }
    }
}

/// One `"derivation":"attribute"` member, with optional whitespace; yields
/// the pair and the position after the value's closing quote.
pub open spec fn p_member(s: Seq<u8>, i: int) -> Option<((Seq<u8>, Seq<u8>), int)> {
    let j = p_skip(s, i);
    if j < s.len() && s[j] == 34 {
        match p_str(s, j + 1) {
            Some((k, j2)) => {
                let j3 = p_skip(s, j2);
                if j3 < s.len() && s[j3] == 58 {
                    let j4 = p_skip(s, j3 + 1);
                    if j4 < s.len() && s[j4] == 34 {
                        match p_str(s, j4 + 1) {
                            Some((v, j5)) => Some(((k, v), j5)),
                            None => None,
                        }
                    } else {
                        None
                    }
                } else {
                    None
                }
            },
            None => None,
        }
    } else {
        None
    }
}

/// One or more comma-separated members; yields the pairs and the position
/// after them, trailing whitespace consumed.
pub open spec fn p_members(s: Seq<u8>, i: int) -> Option<(Seq<(Seq<u8>, Seq<u8>)>, int)>
    decreases s.len() - i,
{
    match p_member(s, i) {
        None => None,
        Some((kv, j)) => {
            let j2 = p_skip(s, j);
            if j2 < s.len() && s[j2] == 44 {
                if i < j2 + 1 <= s.len() {
                    match p_members(s, j2 + 1) {
                        Some((rest, j3)) => Some((seq![kv] + rest, j3)),
                        None => None,
                    }
                } else {
                    None
                }
            } else {
                Some((seq![kv], j2))
            }
        },
    }
}

/// The whole cache object: `{`, members or nothing, `}`, and nothing but
/// whitespace around them.
pub open spec fn p_cache(s: Seq<u8>) -> Option<Seq<(Seq<u8>, Seq<u8>)>> {
    let i = p_skip(s, 0);
    if i < s.len() && s[i] == 123 {
        let j = p_skip(s, i + 1);
        if j < s.len() && s[j] == 125 {
            if p_skip(s, j + 1) == s.len() {
                Some(Seq::empty())
            } else {
                None
            }
        } else {
            match p_members(s, i + 1) {
                Some((ps, j2)) => if j2 < s.len() && s[j2] == 125 && p_skip(s, j2 + 1) == s.len() {
                    Some(ps)
                } else {
                    None
                },
                None => None,
            }
        }
    } else {
        None
    }
}

/// The pairs a sequence of records holds.
pub open spec fn pairs_of(rs: Seq<Record>) -> Seq<(Seq<u8>, Seq<u8>)> {
    rs.map_values(|r: Record| (r.drv@, r.attr@))
}

fn jskip(s: &Vec<u8>, from: usize) -> (r: usize)
    requires
        from <= s@.len(),
    ensures
        r == p_skip(s@, from as int),
        from <= r <= s@.len(),
{
    let mut i = from;
    while i < s.len() && (s[i] == 9 || s[i] == 10 || s[i] == 13 || s[i] == 32)
        invariant
            from <= i <= s@.len(),
            p_skip(s@, from as int) == p_skip(s@, i as int),
        decreases s@.len() - i,
    {
        i = i + 1;
    }
    i
}

fn parse_string(s: &Vec<u8>, from: usize) -> (r: Option<(Vec<u8>, usize)>)
    requires
        from <= s@.len(),
    ensures
        (match r {
            Some(p) => p_str(s@, from as int) == Some((p.0@, p.1 as int)) && from < p.1
                <= s@.len(),
            None => p_str(s@, from as int).is_none(),
        }),
{
    let mut acc: Vec<u8> = Vec::new();
    let mut i = from;
    proof {
        assert(acc@ =~= Seq::<u8>::empty());
    }
    while i < s.len()
        invariant
            from <= i <= s@.len(),
            (match p_str(s@, i as int) {
                Some(p) => p_str(s@, from as int) == Some((acc@ + p.0, p.1)),
                None => p_str(s@, from as int).is_none(),
            }),
        decreases s@.len() - i,
    {
        let b = s[i];
        if b == 34 {
            proof {
                assert(acc@ + Seq::<u8>::empty() =~= acc@);
            }
            return Some((acc, i + 1));
        }
        if b == 92 {
            if i + 1 < s.len() && (s[i + 1] == 34 || s[i + 1] == 92) {
                let c = s[i + 1];
                proof {
                    if p_str(s@, i + 2).is_some() {
                        let t = p_str(s@, i + 2).unwrap().0;
                        assert(acc@ + (seq![s@[i + 1]] + t) =~= acc@.push(s@[i + 1]) + t);
                    }
                }
                acc.push(c);
                i = i + 2;
            } else {
                return None;
            }
        } else if b < 32 {
            return None;
        } else {
            proof {
                if p_str(s@, i + 1).is_some() {
                    let t = p_str(s@, i + 1).unwrap().0;
                    assert(acc@ + (seq![s@[i as int]] + t) =~= acc@.push(s@[i as int]) + t);
                }
            }
            acc.push(b);
            i = i + 1;
        }
    }
    None
}

fn parse_member(s: &Vec<u8>, from: usize) -> (r: Option<(Vec<u8>, Vec<u8>, usize)>)
    requires
        from <= s@.len(),
    ensures
        (match r {
            Some(p) => p_member(s@, from as int) == Some(((p.0@, p.1@), p.2 as int)) && from
                < p.2 <= s@.len(),
            None => p_member(s@, from as int).is_none(),
        }),
{
    let j = jskip(s, from);
    if !(j < s.len() && s[j] == 34) {
        return None;
    }
    let (key, j2) = match parse_string(s, j + 1) {
        Some(p) => p,
        None => {
            return None;
        },
    };
    let j3 = jskip(s, j2);
    if !(j3 < s.len() && s[j3] == 58) {
        return None;
    }
    let j4 = jskip(s, j3 + 1);
    if !(j4 < s.len() && s[j4] == 34) {
        return None;
    }
    match parse_string(s, j4 + 1) {
        Some(p) => Some((key, p.0, p.1)),
        None => None,
    }
}

fn parse_members(s: &Vec<u8>, from: usize) -> (r: Option<(Vec<Record>, usize)>)
    requires
        from <= s@.len(),
    ensures
        (match r {
            Some(p) => p_members(s@, from as int) == Some((pairs_of(p.0@), p.1 as int)) && from
                < p.1 <= s@.len(),
            None => p_members(s@, from as int).is_none(),
        }),
    decreases s@.len() - from,
{
    let (key, val, j) = match parse_member(s, from) {
        Some(p) => p,
        None => {
            return None;
        },
    };
    let j2 = jskip(s, j);
    let mut out: Vec<Record> = Vec::new();
    if j2 < s.len() && s[j2] == 44 {
        match parse_members(s, j2 + 1) {
            Some(p) => {
                let (mut rest, j3) = p;
                let ghost rest_snap = rest@;
                out.push(Record { drv: key, attr: val });
                out.append(&mut rest);
                proof {
                    assert(pairs_of(out@) =~= seq![(out@[0].drv@, out@[0].attr@)] + pairs_of(
                        rest_snap,
                    ));
                }
                Some((out, j3))
            },
            None => None,
        }
    } else {
        out.push(Record { drv: key, attr: val });
        proof {
            assert(pairs_of(out@) =~= seq![(out@[0].drv@, out@[0].attr@)]);
        }
        Some((out, j2))
    }
}

proof fn lemma_clean_drop_first(s: Seq<u8>)
    requires
        clean(s),
        s.len() > 0,
    ensures
        clean(s.drop_first()),
{
    assert forall|i: int| 0 <= i < s.drop_first().len() implies s.drop_first()[i] >= 32 by {
        assert(s.drop_first()[i] == s[i + 1]);
    }
}

proof fn lemma_p_str_of_esc(full: Seq<u8>, pre: Seq<u8>, s: Seq<u8>, post: Seq<u8>)
    requires
        clean(s),
        full == pre + esc(s) + seq![34u8] + post,
    ensures
        p_str(full, pre.len() as int) == Some((s, pre.len() + esc(s).len() + 1int)),
    decreases s.len(),
{
    let i = pre.len() as int;
    if s.len() == 0 {
        assert(esc(s) =~= Seq::<u8>::empty());
        assert(full[i] == 34);
        assert(p_str(full, i) == Some((Seq::<u8>::empty(), i + 1)));
        assert(s =~= Seq::<u8>::empty());
    } else {
        let s0 = s[0];
        let tail = s.drop_first();
        lemma_clean_drop_first(s);
        assert(esc(s) == escb(s0) + esc(tail));
        if s0 == 34 || s0 == 92 {
            let pre2 = pre + seq![92u8, s0];
            assert(full =~= pre2 + esc(tail) + seq![34u8] + post);
            assert(full[i] == 92);
            assert(full[i + 1] == s0);
            lemma_p_str_of_esc(full, pre2, tail, post);
            assert(pre2.len() == i + 2);
            assert(p_str(full, i + 2) == Some((tail, i + 2 + esc(tail).len() + 1)));
            assert(seq![full[i + 1]] + tail =~= s);
            assert(esc(s).len() == 2 + esc(tail).len());
        } else {
            let pre2 = pre + seq![s0];
            assert(full =~= pre2 + esc(tail) + seq![34u8] + post);
            assert(full[i] == s0);
            assert(s0 >= 32);
            lemma_p_str_of_esc(full, pre2, tail, post);
            assert(pre2.len() == i + 1);
            assert(p_str(full, i + 1) == Some((tail, i + 1 + esc(tail).len() + 1)));
            assert(seq![full[i]] + tail =~= s);
            assert(esc(s).len() == 1 + esc(tail).len());
        }
    }
}

proof fn lemma_p_member_of_enc(full: Seq<u8>, pre: Seq<u8>, drv: Seq<u8>, attr: Seq<u8>, post: Seq<u8>)
    requires
        clean(drv),
        clean(attr),
        full == pre + enc_member(drv, attr) + post,
    ensures
        p_member(full, pre.len() as int) == Some(
            ((drv, attr), pre.len() + enc_member(drv, attr).len() as int),
        ),
{
    let i = pre.len() as int;
    assert(full[i] == 34);
    assert(!jws(full[i]));
    assert(p_skip(full, i) == i);
    let pre2 = pre + seq![34u8];
    assert(full =~= pre2 + esc(drv) + seq![34u8] + (seq![58u8] + enc_string(attr) + post));
    lemma_p_str_of_esc(full, pre2, drv, seq![58u8] + enc_string(attr) + post);
    let j2 = i + 1 + esc(drv).len() + 1;
    assert(p_str(full, i + 1) == Some((drv, j2)));
    assert(full[j2] == 58);
    assert(!jws(full[j2]));
    assert(p_skip(full, j2) == j2);
    assert(full[j2 + 1] == 34);
    assert(!jws(full[j2 + 1]));
    assert(p_skip(full, j2 + 1) == j2 + 1);
    let pre3 = pre + enc_string(drv) + seq![58u8] + seq![34u8];
    assert(full =~= pre3 + esc(attr) + seq![34u8] + post);
    lemma_p_str_of_esc(full, pre3, attr, post);
    assert(pre3.len() == j2 + 2);
    assert(p_str(full, j2 + 2) == Some((attr, j2 + 2 + esc(attr).len() + 1)));
    assert(j2 + 2 + esc(attr).len() + 1 == pre.len() + enc_member(drv, attr).len());
}

proof fn lemma_p_members_of_enc(full: Seq<u8>, pre: Seq<u8>, rs: Seq<Record>, i: int, post: Seq<u8>)
    requires
        all_clean(rs),
        0 <= i < rs.len(),
        full == pre + enc_from(rs, i) + post,
        post.len() > 0,
        !jws(post[0]),
        post[0] != 44,
    ensures
        p_members(full, pre.len() as int) == Some(
            (pairs_of(rs).subrange(i, rs.len() as int), pre.len() + enc_from(rs, i).len() as int),
        ),
    decreases rs.len() - i,
{
    let at = pre.len() as int;
    let drv = rs[i].drv@;
    let attr = rs[i].attr@;
    let one = enc_member(drv, attr);
    if i + 1 < rs.len() {
        assert(enc_from(rs, i) == one + seq![44u8] + enc_from(rs, i + 1));
        assert(full =~= pre + one + (seq![44u8] + enc_from(rs, i + 1) + post));
        lemma_p_member_of_enc(full, pre, drv, attr, seq![44u8] + enc_from(rs, i + 1) + post);
        let j = at + one.len();
        assert(p_member(full, at) == Some(((drv, attr), j)));
        assert(full[j] == 44);
        assert(!jws(full[j]));
        assert(p_skip(full, j) == j);
        let pre2 = pre + one + seq![44u8];
        assert(full =~= pre2 + enc_from(rs, i + 1) + post);
        lemma_p_members_of_enc(full, pre2, rs, i + 1, post);
        assert(pre2.len() == j + 1);
        assert(p_members(full, j + 1) == Some(
            (pairs_of(rs).subrange(i + 1, rs.len() as int), j + 1 + enc_from(rs, i + 1).len()),
        ));
        assert(seq![(drv, attr)] + pairs_of(rs).subrange(i + 1, rs.len() as int) =~= pairs_of(
            rs,
        ).subrange(i, rs.len() as int));
        assert(j + 1 + enc_from(rs, i + 1).len() == at + enc_from(rs, i).len());
    } else {
        assert(enc_from(rs, i) == one);
        assert(full =~= pre + one + post);
        lemma_p_member_of_enc(full, pre, drv, attr, post);
        let j = at + one.len();
        assert(p_member(full, at) == Some(((drv, attr), j)));
        assert(full[j] == post[0]);
        assert(p_skip(full, j) == j);
        assert(p_members(full, at) == Some((seq![(drv, attr)], j)));
        assert(seq![(drv, attr)] =~= pairs_of(rs).subrange(i, rs.len() as int));
    }
}

/// Law: the codec round-trips. What the encoder wrote of representable
/// records, the parser reads back as the same pairs, so a flushed cache
/// re-seeds the next run with exactly the mapping that was persisted.
pub proof fn lemma_parse_encode(rs: Seq<Record>)
    requires
        all_clean(rs),
    ensures
        p_cache(enc_cache(rs)) == Some(pairs_of(rs)),
{
    let full = enc_cache(rs);
    assert(full[0] == 123);
    assert(!jws(full[0]));
    assert(p_skip(full, 0) == 0);
    if rs.len() == 0 {
        assert(enc_from(rs, 0) =~= Seq::<u8>::empty());
        assert(full =~= seq![123u8, 125u8]);
        assert(full[1] == 125);
        assert(!jws(full[1]));
        assert(p_skip(full, 1) == 1);
        assert(p_skip(full, 2) == 2);
        assert(pairs_of(rs) =~= Seq::<(Seq<u8>, Seq<u8>)>::empty());
    } else {
        let body = enc_from(rs, 0);
        assert(full =~= seq![123u8] + body + seq![125u8]);
        assert(body.len() > 0) by {
            assert(body == enc_member(rs[0].drv@, rs[0].attr@) + seq![44u8] + enc_from(rs, 1)
                || body == enc_member(rs[0].drv@, rs[0].attr@));
        }
        assert(full[1] == body[0]);
        assert(body[0] == 34) by {
            assert(enc_member(rs[0].drv@, rs[0].attr@)[0] == 34);
        }
        assert(!jws(full[1]));
        assert(p_skip(full, 1) == 1);
        lemma_p_members_of_enc(full, seq![123u8], rs, 0, seq![125u8]);
        let j2 = 1 + body.len() as int;
        assert(p_members(full, 1) == Some((pairs_of(rs).subrange(0, rs.len() as int), j2)));
        assert(full[j2] == 125);
        assert(p_skip(full, j2 + 1) == full.len());
        assert(pairs_of(rs).subrange(0, rs.len() as int) =~= pairs_of(rs));
    }
}

/// Deserializes the cache object into its records, or yields nothing where
/// the bytes do not hold one.
pub fn parse_cache(s: &Vec<u8>) -> (r: Option<Vec<Record>>)
    ensures
        (match r {
            Some(v) => p_cache(s@) == Some(pairs_of(v@)),
            None => p_cache(s@).is_none(),
        }),
{
    let i = jskip(s, 0);
    if !(i < s.len() && s[i] == 123) {
        return None;
    }
    let j = jskip(s, i + 1);
    if j < s.len() && s[j] == 125 {
        if jskip(s, j + 1) == s.len() {
            let out: Vec<Record> = Vec::new();
            proof {
                assert(pairs_of(out@) =~= Seq::<(Seq<u8>, Seq<u8>)>::empty());
            }
            return Some(out);
        } else {
            return None;
        }
    }
    match parse_members(s, i + 1) {
        Some(p) => {
            let (v, j2) = p;
            if j2 < s.len() && s[j2] == 125 && jskip(s, j2 + 1) == s.len() {
                Some(v)
            } else {
                None
            }
        },
        None => None,
    }
}

} // verus!
