//! The fixed-output classifier. A derivation description names a declared
//! content hash when it opens with `Derive(` followed by an output tuple of
//! four non-empty quoted fields: output name, store path, hash algorithm and
//! hash. Only such derivations are eligible for reproducibility checking.

use vstd::prelude::*;

verus! {

/// ASCII whitespace, as the description format allows between tokens.
pub open spec fn is_space(b: u8) -> bool {
    b == 9 || b == 10 || b == 11 || b == 12 || b == 13 || b == 32
}

/// The first position at or after `i` holding a non-space byte (or the end).
pub open spec fn skip_spaces(s: Seq<u8>, i: int) -> int
    decreases s.len() - i,
{
    if 0 <= i < s.len() && is_space(s[i]) {
        skip_spaces(s, i + 1)
    } else {
        i
    }
}

pub proof fn lemma_skip_spaces_bounds(s: Seq<u8>, i: int)
    requires
        0 <= i <= s.len(),
    ensures
        i <= skip_spaces(s, i) <= s.len(),
    decreases s.len() - i,
{
    if i < s.len() && is_space(s[i]) {
        lemma_skip_spaces_bounds(s, i + 1);
    }
}

/// After optional spaces, the byte `c`; yields the position after it.
pub open spec fn expect_tok(s: Seq<u8>, i: int, c: u8) -> Option<int> {
    let j = skip_spaces(s, i);
    if j < s.len() && s[j] == c {
        Some(j + 1)
    } else {
        None
    }
}

/// The position of the first `"` at or after `i`, if any.
pub open spec fn quote_end(s: Seq<u8>, i: int) -> Option<int>
    decreases s.len() - i,
{
    if 0 <= i < s.len() {
        if s[i] == 34 {
            Some(i)
        } else {
            quote_end(s, i + 1)
        }
    } else {
        None
    }
}

pub proof fn lemma_quote_end_bounds(s: Seq<u8>, i: int)
    requires
        0 <= i,
    ensures
        match quote_end(s, i) {
            Some(k) => i <= k < s.len() && s[k] == 34,
            None => true,
        },
    decreases s.len() - i,
{
    if i < s.len() && s[i] != 34 {
        lemma_quote_end_bounds(s, i + 1);
    }
}

/// After optional spaces, a quoted field with at least one byte of content;
/// yields the position after the closing quote.
pub open spec fn field_end(s: Seq<u8>, i: int) -> Option<int> {
    let j = skip_spaces(s, i);
    if j < s.len() && s[j] == 34 {
        match quote_end(s, j + 1) {
            Some(k) => if k > j + 1 {
                Some(k + 1)
            } else {
                None
            },
            None => None,
        }
    } else {
        None
    }
}

/// The description opens with the literal bytes `Derive(`.
pub open spec fn has_derive_prefix(s: Seq<u8>) -> bool {
    &&& s.len() >= 7
    &&& s[0] == 68
    &&& s[1] == 101
    &&& s[2] == 114
    &&& s[3] == 105
    &&& s[4] == 118
    &&& s[5] == 101
    &&& s[6] == 40
}

/// Whether the description declares an output hash: `Derive(` then `[`, `(`
/// and four non-empty quoted fields separated by commas, closed by `)`.
pub open spec fn fod_mark(s: Seq<u8>) -> bool {
    has_derive_prefix(s) && match expect_tok(s, 7, 91) {
        None => false,
        Some(i1) => match expect_tok(s, i1, 40) {
            None => false,
            Some(i2) => match field_end(s, i2) {
                None => false,
                Some(i3) => match expect_tok(s, i3, 44) {
                    None => false,
                    Some(i4) => match field_end(s, i4) {
                        None => false,
                        Some(i5) => match expect_tok(s, i5, 44) {
                            None => false,
                            Some(i6) => match field_end(s, i6) {
                                None => false,
                                Some(i7) => match expect_tok(s, i7, 44) {
                                    None => false,
                                    Some(i8) => match field_end(s, i8) {
                                        None => false,
                                        Some(i9) => expect_tok(s, i9, 41).is_some(),
                                    },
                                },
                            },
                        },
                    },
                },
            },
        },
    }
}

fn skip(s: &Vec<u8>, from: usize) -> (r: usize)
    requires
        from <= s@.len(),
    ensures
        r == skip_spaces(s@, from as int),
        from <= r <= s@.len(),
{
    let mut i = from;
    while i < s.len() && (s[i] == 9 || s[i] == 10 || s[i] == 11 || s[i] == 12 || s[i] == 13
        || s[i] == 32)
        invariant
            from <= i <= s@.len(),
            skip_spaces(s@, from as int) == skip_spaces(s@, i as int),
        decreases s@.len() - i,
    {
        i = i + 1;
    }
    i
}

fn expect(s: &Vec<u8>, from: usize, c: u8) -> (r: Option<usize>)
    requires
        from <= s@.len(),
    ensures
        match r {
            Some(k) => expect_tok(s@, from as int, c) == Some(k as int) && k <= s@.len(),
            None => expect_tok(s@, from as int, c).is_none(),
        },
{
    let j = skip(s, from);
    if j < s.len() && s[j] == c {
        Some(j + 1)
    } else {
        None
    }
}

fn field(s: &Vec<u8>, from: usize) -> (r: Option<usize>)
    requires
        from <= s@.len(),
    ensures
        match r {
            Some(k) => field_end(s@, from as int) == Some(k as int) && k <= s@.len(),
            None => field_end(s@, from as int).is_none(),
        },
{
    let j = skip(s, from);
    if j < s.len() && s[j] == 34 {
        let mut i = j + 1;
        while i < s.len() && s[i] != 34
            invariant
                j + 1 <= i <= s@.len(),
                quote_end(s@, (j + 1) as int) == quote_end(s@, i as int),
            decreases s@.len() - i,
        {
            i = i + 1;
        }
        if i < s.len() && i > j + 1 {
            Some(i + 1)
        } else {
            None
        }
    } else {
        None
    }
}

/// Returns whether the derivation description declares an output hash, i.e.
/// whether the derivation is fixed-output.
pub fn is_fod(drv: &Vec<u8>) -> (r: bool)
    ensures
        r == fod_mark(drv@),
{
    if drv.len() < 7 {
        return false;
    }
    if !(drv[0] == 68 && drv[1] == 101 && drv[2] == 114 && drv[3] == 105 && drv[4] == 118
        && drv[5] == 101 && drv[6] == 40) {
        return false;
    }
    let i1 = match expect(drv, 7, 91) {
        Some(i) => i,
        None => {
            return false;
        },
    };
    let i2 = match expect(drv, i1, 40) {
        Some(i) => i,
        None => {
            return false;
        },
    };
    let i3 = match field(drv, i2) {
        Some(i) => i,
        None => {
            return false;
        },
    };
    let i4 = match expect(drv, i3, 44) {
        Some(i) => i,
        None => {
            return false;
        },
    };
    let i5 = match field(drv, i4) {
        Some(i) => i,
        None => {
            return false;
        },
    };
    let i6 = match expect(drv, i5, 44) {
        Some(i) => i,
        None => {
            return false;
        },
    };
    let i7 = match field(drv, i6) {
        Some(i) => i,
        None => {
            return false;
        },
    };
    let i8 = match expect(drv, i7, 44) {
        Some(i) => i,
        None => {
            return false;
        },
    };
    let i9 = match field(drv, i8) {
        Some(i) => i,
        None => {
            return false;
        },
    };
    expect(drv, i9, 41).is_some()
}

} // verus!
