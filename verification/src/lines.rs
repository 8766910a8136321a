//! The line classifier: splitting an input into lines, trimming them, and
//! deriving comparison keys.
//!
//! The library works on bytes throughout.  Whitespace, for trimming, means
//! the six ASCII whitespace bytes (tab, line feed, vertical tab, form feed,
//! carriage return, space); a line padded with multi-byte encodings of other
//! Unicode whitespace keeps those bytes, and they take part in comparison.
//! Case folding, likewise, folds the ASCII letters only.

use vstd::prelude::*;

verus! {

/// The whitespace bytes that are trimmed from both ends of a line.
pub open spec fn is_space(b: u8) -> bool {
    b == 32 || b == 9 || b == 10 || b == 11 || b == 12 || b == 13
}

/// True when the sequence holds no newline byte.
pub open spec fn no_newline(s: Seq<u8>) -> bool {
    forall|j: int| 0 <= j < s.len() ==> s[j] != 10
}

/// Splits a byte sequence on newline bytes; the separators are consumed and
/// every (possibly empty) piece between them is kept, so an empty input gives
/// one empty piece.
pub open spec fn split_lines(s: Seq<u8>) -> Seq<Seq<u8>>
    decreases s.len(),
{
    if s.len() == 0 {
        seq![Seq::<u8>::empty()]
    } else if s[0] == 10 {
        seq![Seq::<u8>::empty()] + split_lines(s.skip(1))
    } else {
        let rest = split_lines(s.skip(1));
        seq![seq![s[0]] + rest.first()] + rest.skip(1)
    }
}

/// Drops leading whitespace bytes.
pub open spec fn trim_start(s: Seq<u8>) -> Seq<u8>
    decreases s.len(),
{
    if s.len() > 0 && is_space(s[0]) {
        trim_start(s.skip(1))
    } else {
        s
    }
}

/// Drops trailing whitespace bytes.
pub open spec fn trim_end(s: Seq<u8>) -> Seq<u8>
    decreases s.len(),
{
    if s.len() > 0 && is_space(s.last()) {
        trim_end(s.drop_last())
    } else {
        s
    }
}

/// Drops whitespace bytes from both ends.
pub open spec fn trim_spec(s: Seq<u8>) -> Seq<u8> {
    trim_end(trim_start(s))
}

/// What one raw piece contributes to the line list: its trimmed text, or
/// nothing when only whitespace is left.
pub open spec fn clean_piece(p: Seq<u8>) -> Seq<Seq<u8>> {
    if trim_spec(p).len() > 0 {
        seq![trim_spec(p)]
    } else {
        Seq::<Seq<u8>>::empty()
    }
}

/// The trimmed, non-empty lines that a piece list contributes, in order.
pub open spec fn clean_pieces(ps: Seq<Seq<u8>>) -> Seq<Seq<u8>>
    decreases ps.len(),
{
    if ps.len() == 0 {
        Seq::<Seq<u8>>::empty()
    } else {
        clean_piece(ps.first()) + clean_pieces(ps.skip(1))
    }
}

/// The line list of a whole input: split on newlines, trim each piece, and
/// drop the pieces that were empty or all whitespace.
pub open spec fn clean_lines_spec(s: Seq<u8>) -> Seq<Seq<u8>> {
    clean_pieces(split_lines(s))
}

/// Maps an upper-case ASCII letter to its lower-case form.
pub open spec fn fold_byte(b: u8) -> u8 {
    if 65 <= b && b <= 90 {
        (b + 32) as u8
    } else {
        b
    }
}

/// The comparison key of a line: the line itself, or its case-folded form
/// when case-insensitive comparison was asked for.
pub open spec fn key_of(ignore_case: bool, line: Seq<u8>) -> Seq<u8> {
    if ignore_case {
        line.map_values(|b: u8| fold_byte(b))
    } else {
        line
    }
}

/// Splitting always yields at least one piece.
pub proof fn lemma_split_nonempty(s: Seq<u8>)
    ensures
        split_lines(s).len() >= 1,
    decreases s.len(),
{
    if s.len() > 0 {
        lemma_split_nonempty(s.skip(1));
    }
}

/// A sequence without newlines splits into exactly itself.
pub proof fn lemma_split_no_newline(u: Seq<u8>)
    requires
        no_newline(u),
    ensures
        split_lines(u) == seq![u],
    decreases u.len(),
{
    if u.len() == 0 {
        assert(u =~= Seq::<u8>::empty());
        assert(split_lines(u) =~~= seq![u]);
    } else {
        assert(u[0] != 10);
        assert(no_newline(u.skip(1)));
        lemma_split_no_newline(u.skip(1));
        let rest = split_lines(u.skip(1));
        assert(rest.first() == u.skip(1));
        assert(rest.skip(1) =~= Seq::<Seq<u8>>::empty());
        assert(seq![u[0]] + u.skip(1) =~= u);
        assert(split_lines(u) =~~= seq![u]);
    }
}

/// Peeling the first line off at its terminating newline.
pub proof fn lemma_split_peel(u: Seq<u8>, v: Seq<u8>)
    requires
        no_newline(u),
    ensures
        split_lines(u + seq![10u8] + v) == seq![u] + split_lines(v),
    decreases u.len(),
{
    let s = u + seq![10u8] + v;
    if u.len() == 0 {
        assert(s[0] == 10);
        assert(s.skip(1) =~= v);
        assert(split_lines(s) =~~= seq![u] + split_lines(v));
    } else {
        assert(s[0] == u[0] && u[0] != 10);
        assert(s.skip(1) =~= u.skip(1) + seq![10u8] + v);
        assert(no_newline(u.skip(1)));
        lemma_split_peel(u.skip(1), v);
        let rest = split_lines(s.skip(1));
        assert(rest == seq![u.skip(1)] + split_lines(v));
        assert(rest.first() == u.skip(1));
        assert(rest.skip(1) =~= split_lines(v));
        assert(seq![s[0]] + rest.first() =~= u);
        assert(split_lines(s) =~~= seq![u] + split_lines(v));
    }
}

/// Peeling the last line off at the newline that precedes it.
pub proof fn lemma_split_peel_last(u: Seq<u8>, v: Seq<u8>)
    requires
        no_newline(v),
    ensures
        split_lines(u + seq![10u8] + v) == split_lines(u) + seq![v],
    decreases u.len(),
{
    let s = u + seq![10u8] + v;
    if u.len() == 0 {
        assert(s[0] == 10);
        assert(s.skip(1) =~= v);
        lemma_split_no_newline(v);
        assert(split_lines(u) =~~= seq![Seq::<u8>::empty()]);
        assert(split_lines(s) =~~= split_lines(u) + seq![v]);
    } else if u[0] == 10 {
        assert(s[0] == 10);
        assert(s.skip(1) =~= u.skip(1) + seq![10u8] + v);
        lemma_split_peel_last(u.skip(1), v);
        assert(split_lines(s) == seq![Seq::<u8>::empty()] + (split_lines(u.skip(1)) + seq![v]));
        assert(split_lines(u) == seq![Seq::<u8>::empty()] + split_lines(u.skip(1)));
        assert(split_lines(s) =~~= split_lines(u) + seq![v]);
    } else {
        assert(s[0] == u[0] && u[0] != 10);
        assert(s.skip(1) =~= u.skip(1) + seq![10u8] + v);
        lemma_split_peel_last(u.skip(1), v);
        let rest = split_lines(s.skip(1));
        let inner = split_lines(u.skip(1));
        assert(rest == inner + seq![v]);
        lemma_split_nonempty(u.skip(1));
        assert(rest.first() == inner.first());
        assert(rest.skip(1) =~= inner.skip(1) + seq![v]);
        assert(split_lines(s) =~~= split_lines(u) + seq![v]);
    }
}

/// The cleaned line list of a single piece is what that piece contributes.
pub proof fn lemma_clean_pieces_single(p: Seq<u8>)
    ensures
        clean_pieces(seq![p]) == clean_piece(p),
{
    let s = seq![p];
    assert(s.first() == p);
    assert(s.skip(1) =~= Seq::<Seq<u8>>::empty());
    assert(clean_pieces(Seq::<Seq<u8>>::empty()) == Seq::<Seq<u8>>::empty());
    assert(clean_pieces(s) == clean_piece(p) + Seq::<Seq<u8>>::empty());
    assert(clean_piece(p) + Seq::<Seq<u8>>::empty() =~= clean_piece(p));
}

/// The cleaned line list distributes over concatenation of piece lists.
pub proof fn lemma_clean_pieces_concat(a: Seq<Seq<u8>>, b: Seq<Seq<u8>>)
    ensures
        clean_pieces(a + b) == clean_pieces(a) + clean_pieces(b),
    decreases a.len(),
{
    if a.len() == 0 {
        assert(a + b =~= b);
        assert(clean_pieces(a) =~~= Seq::<Seq<u8>>::empty());
        assert(clean_pieces(a + b) =~~= clean_pieces(a) + clean_pieces(b));
    } else {
        assert((a + b).len() > 0);
        assert((a + b).first() == a.first());
        assert((a + b).skip(1) =~= a.skip(1) + b);
        lemma_clean_pieces_concat(a.skip(1), b);
        assert(clean_pieces(a + b) =~~= clean_pieces(a) + clean_pieces(b));
    }
}

/// Dropping leading whitespace is taking the suffix that starts at the first
/// non-whitespace position.
pub proof fn lemma_trim_start_skip(s: Seq<u8>, k: int)
    requires
        0 <= k <= s.len(),
        forall|j: int| 0 <= j < k ==> is_space(s[j]),
        k == s.len() || !is_space(s[k]),
    ensures
        trim_start(s) == s.skip(k),
    decreases k,
{
    if k == 0 {
        assert(s.skip(0) =~= s);
    } else {
        assert(is_space(s[0]));
        let t = s.skip(1);
        assert(forall|j: int| 0 <= j < k - 1 ==> is_space(t[j]));
        assert(k - 1 == t.len() || !is_space(t[k - 1]));
        lemma_trim_start_skip(t, k - 1);
        assert(t.skip(k - 1) =~= s.skip(k));
    }
}

/// Dropping trailing whitespace is taking the prefix that ends at the last
/// non-whitespace position.
pub proof fn lemma_trim_end_take(s: Seq<u8>, h: int)
    requires
        0 <= h <= s.len(),
        forall|j: int| h <= j < s.len() ==> is_space(s[j]),
        h == 0 || !is_space(s[h - 1]),
    ensures
        trim_end(s) == s.take(h),
    decreases s.len(),
{
    if h == s.len() {
        if s.len() > 0 {
            assert(!is_space(s.last()));
        }
        assert(s.take(h) =~= s);
    } else {
        assert(is_space(s.last()));
        let t = s.drop_last();
        assert(forall|j: int| h <= j < t.len() ==> is_space(t[j]));
        lemma_trim_end_take(t, h);
        assert(t.take(h) =~= s.take(h));
    }
}

/// Decides whether a byte is trimmed whitespace.
pub fn is_space_byte(b: u8) -> (r: bool)
    ensures
        r == is_space(b),
{
    b == 32 || b == 9 || b == 10 || b == 11 || b == 12 || b == 13
}

/// The position of the first non-whitespace byte.
fn first_non_space(v: &Vec<u8>) -> (lo: usize)
    ensures
        lo <= v@.len(),
        forall|j: int| 0 <= j < lo ==> is_space(v@[j]),
        lo == v@.len() || !is_space(v@[lo as int]),
{
    let mut lo: usize = 0;
    while lo < v.len()
        invariant
            lo <= v@.len(),
            forall|j: int| 0 <= j < lo ==> is_space(v@[j]),
        decreases v@.len() - lo,
    {
        if !is_space_byte(v[lo]) {
            return lo;
        }
        lo += 1;
    }
    lo
}

/// The position just after the last non-whitespace byte at or after `lo`.
fn last_non_space_from(v: &Vec<u8>, lo: usize) -> (hi: usize)
    requires
        lo <= v@.len(),
    ensures
        lo <= hi <= v@.len(),
        forall|j: int| hi <= j < v@.len() ==> is_space(v@[j]),
        hi == lo || !is_space(v@[hi - 1]),
{
    let mut hi: usize = v.len();
    while hi > lo
        invariant
            lo <= hi <= v@.len(),
            forall|j: int| hi <= j < v@.len() ==> is_space(v@[j]),
        decreases hi,
    {
        if !is_space_byte(v[hi - 1]) {
            return hi;
        }
        hi -= 1;
    }
    hi
}

/// Copies a byte vector.
pub fn copy_bytes(v: &Vec<u8>) -> (r: Vec<u8>)
    ensures
        r@ == v@,
{
    let mut r: Vec<u8> = Vec::new();
    let mut i: usize = 0;
    while i < v.len()
        invariant
            i <= v@.len(),
            r@ == v@.take(i as int),
        decreases v@.len() - i,
    {
        r.push(v[i]);
        proof {
            assert(v@.take(i as int).push(v@[i as int]) =~= v@.take(i as int + 1));
        }
        i += 1;
    }
    proof {
        assert(v@.take(v@.len() as int) =~= v@);
    }
    r
}

/// Removes whitespace bytes from both ends of a line.
pub fn trim_bytes(v: &Vec<u8>) -> (r: Vec<u8>)
    ensures
        r@ == trim_spec(v@),
{
    let lo = first_non_space(v);
    let hi = last_non_space_from(v, lo);
    let mut r: Vec<u8> = Vec::new();
    let mut i: usize = lo;
    while i < hi
        invariant
            lo <= i <= hi <= v@.len(),
            r@ == v@.subrange(lo as int, i as int),
        decreases hi - i,
    {
        r.push(v[i]);
        proof {
            assert(v@.subrange(lo as int, i as int).push(v@[i as int]) =~= v@.subrange(
                lo as int,
                i as int + 1,
            ));
        }
        i += 1;
    }
    proof {
        lemma_trim_start_skip(v@, lo as int);
        let t = v@.skip(lo as int);
        assert(forall|j: int| hi - lo <= j < t.len() ==> is_space(t[j]));
        assert(hi - lo == 0 || !is_space(t[hi - lo - 1]));
        lemma_trim_end_take(t, hi - lo);
        assert(t.take(hi - lo) =~= v@.subrange(lo as int, hi as int));
        assert(r@ == trim_spec(v@));
    }
    r
}

/// Derives the comparison key of a trimmed line.
pub fn derive_key(ignore_case: bool, line: &Vec<u8>) -> (r: Vec<u8>)
    ensures
        r@ == key_of(ignore_case, line@),
{
    if !ignore_case {
        return copy_bytes(line);
    }
    let mut r: Vec<u8> = Vec::new();
    let mut i: usize = 0;
    while i < line.len()
        invariant
            i <= line@.len(),
            r@ == key_of(true, line@.take(i as int)),
        decreases line@.len() - i,
    {
        let b = line[i];
        let f: u8 = if b >= 65 && b <= 90 {
            b + 32
        } else {
            b
        };
        r.push(f);
        proof {
            assert(line@.take(i as int + 1) =~= line@.take(i as int).push(line@[i as int]));
            assert(key_of(true, line@.take(i as int + 1)) =~= key_of(true, line@.take(i as int)).push(
                fold_byte(line@[i as int]),
            ));
        }
        i += 1;
    }
    proof {
        assert(line@.take(line@.len() as int) =~= line@);
    }
    r
}

/// Splits a whole input into its trimmed, non-empty lines.
pub fn split_clean_lines(input: &Vec<u8>) -> (r: Vec<Vec<u8>>)
    ensures
        r.deep_view() == clean_lines_spec(input@),
{
    let mut r: Vec<Vec<u8>> = Vec::new();
    let mut cur: Vec<u8> = Vec::new();
    let mut i: usize = 0;
    proof {
        assert(cur@ + input@.skip(0) =~= input@);
        assert(r.deep_view() =~= Seq::<Seq<u8>>::empty());
        assert(r.deep_view() + clean_pieces(split_lines(input@)) =~= clean_pieces(
            split_lines(input@),
        ));
    }
    while i < input.len()
        invariant
            i <= input@.len(),
            no_newline(cur@),
            clean_lines_spec(input@) == r.deep_view() + clean_pieces(
                split_lines(cur@ + input@.skip(i as int)),
            ),
        decreases input@.len() - i,
    {
        let ghost r0 = r.deep_view();
        let ghost cur0 = cur@;
        let b = input[i];
        if b == 10 {
            let t = trim_bytes(&cur);
            proof {
                assert(cur0 + input@.skip(i as int) =~= cur0 + seq![10u8] + input@.skip(
                    i as int + 1,
                ));
                lemma_split_peel(cur0, input@.skip(i as int + 1));
                lemma_clean_pieces_concat(seq![cur0], split_lines(input@.skip(i as int + 1)));
                lemma_clean_pieces_single(cur0);
            }
            if t.len() > 0 {
                r.push(t);
                proof {
                    assert(t.deep_view() =~= t@);
                    assert(r.deep_view() =~= r0.push(t@));
                    assert(r.deep_view() =~= r0 + clean_piece(cur0));
                }
            } else {
                proof {
                    assert(clean_piece(cur0) =~= Seq::<Seq<u8>>::empty());
                    assert(r.deep_view() =~= r0 + clean_piece(cur0));
                }
            }
            cur = Vec::new();
            proof {
                assert(cur@ + input@.skip(i as int + 1) =~= input@.skip(i as int + 1));
                assert(r.deep_view() + clean_pieces(split_lines(cur@ + input@.skip(i as int + 1)))
                    =~~= r0 + clean_pieces(split_lines(cur0 + input@.skip(i as int))));
            }
        } else {
            cur.push(b);
            proof {
                assert(cur@ + input@.skip(i as int + 1) =~= cur0 + input@.skip(i as int));
            }
        }
        i += 1;
    }
    let ghost r1 = r.deep_view();
    let ghost cur1 = cur@;
    let t = trim_bytes(&cur);
    proof {
        assert(cur1 + input@.skip(input@.len() as int) =~= cur1);
        lemma_split_no_newline(cur1);
        lemma_clean_pieces_single(cur1);
        assert(clean_lines_spec(input@) == r1 + clean_piece(cur1));
    }
    if t.len() > 0 {
        r.push(t);
        proof {
            assert(t.deep_view() =~= t@);
            assert(r.deep_view() =~= r1.push(t@));
            assert(r.deep_view() =~= r1 + clean_piece(cur1));
        }
    } else {
        proof {
            assert(clean_piece(cur1) =~= Seq::<Seq<u8>>::empty());
            assert(r.deep_view() =~= r1 + clean_piece(cur1));
        }
    }
    r
}

} // verus!
