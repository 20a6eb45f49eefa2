//! Textual destination addresses.
//!
//! A destination is classified from its bytes alone: an IPv4 literal
//! (optionally followed by `:` and a port), an IPv6 literal, or unsupported.
//! The grammar is stated over the UTF-8 bytes of the destination string,
//! through a deterministic split on the separator byte, so that every
//! classification result is an exact consequence of the stated grammar.

use vstd::prelude::*;

verus! {

// ---------------------------------------------------------------------------
// Splitting a byte string on a separator.
// ---------------------------------------------------------------------------

/// The pieces of `s` between occurrences of `sep`, in order.  A string with
/// no separator is one piece; each separator ends a piece, so `n` separators
/// give `n + 1` pieces (possibly empty ones).
pub open spec fn split_on(s: Seq<u8>, sep: u8) -> Seq<Seq<u8>>
    decreases s.len(),
{
    if s.len() == 0 {
        seq![Seq::<u8>::empty()]
    } else if s[0] == sep {
        seq![Seq::<u8>::empty()] + split_on(s.drop_first(), sep)
    } else {
        let rest = split_on(s.drop_first(), sep);
        seq![seq![s[0]] + rest[0]] + rest.drop_first()
    }
}

/// The pieces joined back with `sep` between them.
pub open spec fn join_on(pieces: Seq<Seq<u8>>, sep: u8) -> Seq<u8>
    decreases pieces.len(),
{
    if pieces.len() == 0 {
        Seq::<u8>::empty()
    } else if pieces.len() == 1 {
        pieces[0]
    } else {
        pieces[0] + seq![sep] + join_on(pieces.drop_first(), sep)
    }
}

/// `p` holds no occurrence of `sep`.
pub open spec fn sep_free(p: Seq<u8>, sep: u8) -> bool {
    forall|i: int| 0 <= i < p.len() ==> p[i] != sep
}

/// Every piece is free of `sep`.
pub open spec fn all_sep_free(pieces: Seq<Seq<u8>>, sep: u8) -> bool {
    forall|j: int| 0 <= j < pieces.len() ==> sep_free(#[trigger] pieces[j], sep)
}

/// A split always has at least one piece.
pub proof fn lemma_split_on_len(s: Seq<u8>, sep: u8)
    ensures
        split_on(s, sep).len() >= 1,
    decreases s.len(),
{
    if s.len() == 0 {
    } else {
        lemma_split_on_len(s.drop_first(), sep);
    }
}

/// Appending a piece to the list appends `sep` and the piece to the join.
pub proof fn lemma_join_push(pieces: Seq<Seq<u8>>, p: Seq<u8>, sep: u8)
    ensures
        pieces.len() == 0 ==> join_on(pieces.push(p), sep) == p,
        pieces.len() >= 1 ==> join_on(pieces.push(p), sep) == join_on(pieces, sep) + seq![sep]
            + p,
    decreases pieces.len(),
{
    if pieces.len() == 0 {
        assert(pieces.push(p) =~~= seq![p]);
    } else if pieces.len() == 1 {
        assert(pieces.push(p).drop_first() =~~= seq![p]);
        assert(pieces.push(p)[0] == pieces[0]);
        assert(pieces.push(p).len() == 2);
        assert(join_on(pieces.push(p), sep) == pieces.push(p)[0] + seq![sep] + join_on(
            pieces.push(p).drop_first(),
            sep,
        ));
        assert(join_on(seq![p], sep) == seq![p][0]);
        assert(seq![p][0] == p);
        assert(join_on(pieces, sep) == pieces[0]);
    } else {
        assert(pieces.push(p).drop_first() =~~= pieces.drop_first().push(p));
        lemma_join_push(pieces.drop_first(), p, sep);
        assert(pieces.push(p)[0] == pieces[0]);
        assert(pieces[0] + seq![sep] + (join_on(pieces.drop_first(), sep) + seq![sep] + p) =~= (
        pieces[0] + seq![sep] + join_on(pieces.drop_first(), sep)) + seq![sep] + p);
    }
}

/// A piece list that joins to `s` and is separator-free is the split of `s`:
/// the split is the unique such decomposition.
pub proof fn lemma_split_on_unique(s: Seq<u8>, sep: u8, pieces: Seq<Seq<u8>>)
    requires
        pieces.len() >= 1,
        all_sep_free(pieces, sep),
        join_on(pieces, sep) == s,
    ensures
        split_on(s, sep) == pieces,
    decreases s.len(),
{
    if s.len() == 0 {
        if pieces.len() >= 2 {
            assert(join_on(pieces, sep).len() >= pieces[0].len() + 1);
            assert(false);
        }
        assert(pieces[0] == s);
        assert(pieces =~~= seq![Seq::<u8>::empty()]);
    } else if s[0] == sep {
        if pieces.len() == 1 {
            assert(pieces[0] == s);
            assert(!sep_free(pieces[0], sep));
            assert(false);
        }
        if pieces[0].len() > 0 {
            assert(join_on(pieces, sep)[0] == pieces[0][0]);
            assert(pieces[0][0] != sep);
            assert(false);
        }
        assert(join_on(pieces, sep) == pieces[0] + seq![sep] + join_on(pieces.drop_first(), sep));
        assert(join_on(pieces.drop_first(), sep) =~= s.drop_first());
        assert(all_sep_free(pieces.drop_first(), sep)) by {
            assert(forall|j: int|
                0 <= j < pieces.drop_first().len() ==> pieces.drop_first()[j] == pieces[j + 1]);
        }
        lemma_split_on_unique(s.drop_first(), sep, pieces.drop_first());
        assert(pieces[0] =~= Seq::<u8>::empty());
        assert(split_on(s, sep) =~~= pieces);
    } else {
        if pieces.len() == 1 {
            assert(pieces[0] == s);
            assert(sep_free(s.drop_first(), sep)) by {
                assert(forall|i: int|
                    0 <= i < s.drop_first().len() ==> s.drop_first()[i] == s[i + 1]);
            }
            assert(all_sep_free(seq![s.drop_first()], sep)) by {
                assert(seq![s.drop_first()][0] == s.drop_first());
            }
            lemma_split_on_unique(s.drop_first(), sep, seq![s.drop_first()]);
            let rest = split_on(s.drop_first(), sep);
            assert(rest == seq![s.drop_first()]);
            assert(rest[0] == s.drop_first());
            assert(seq![s[0]] + rest[0] =~= s);
            assert(rest.drop_first() =~~= Seq::<Seq<u8>>::empty());
            assert(split_on(s, sep) =~~= seq![s]);
        } else {
            let q0 = pieces[0];
            assert(join_on(pieces, sep) == q0 + seq![sep] + join_on(pieces.drop_first(), sep));
            if q0.len() == 0 {
                assert(join_on(pieces, sep)[0] == sep);
                assert(false);
            }
            assert(q0[0] == s[0]) by {
                assert(join_on(pieces, sep)[0] == q0[0]);
            }
            let qp = seq![q0.drop_first()] + pieces.drop_first();
            assert(qp.len() == 1 + pieces.len() - 1);
            assert(qp[0] == q0.drop_first());
            assert(qp.drop_first() =~~= pieces.drop_first());
            assert(join_on(qp, sep) == q0.drop_first() + seq![sep] + join_on(
                pieces.drop_first(),
                sep,
            ));
            assert(join_on(qp, sep) =~= s.drop_first());
            assert(all_sep_free(qp, sep)) by {
                assert(sep_free(q0.drop_first(), sep)) by {
                    assert(forall|i: int|
                        0 <= i < q0.drop_first().len() ==> q0.drop_first()[i] == q0[i + 1]);
                }
                assert(forall|j: int| 1 <= j < qp.len() ==> qp[j] == pieces[j]);
            }
            lemma_split_on_unique(s.drop_first(), sep, qp);
            let rest = split_on(s.drop_first(), sep);
            assert(rest == qp);
            assert(seq![s[0]] + rest[0] =~= q0);
            assert(split_on(s, sep) =~~= pieces);
        }
    }
}

/// A separator-free string splits into itself alone.
pub proof fn lemma_split_on_sep_free(s: Seq<u8>, sep: u8)
    requires
        sep_free(s, sep),
    ensures
        split_on(s, sep) == seq![s],
{
    assert(all_sep_free(seq![s], sep)) by {
        assert(seq![s][0] == s);
    }
    assert(join_on(seq![s], sep) == s);
    lemma_split_on_unique(s, sep, seq![s]);
}

// ---------------------------------------------------------------------------
// Character classes and numeric pieces (over UTF-8 bytes).
// ---------------------------------------------------------------------------

/// An ASCII decimal digit (`'0'` is byte 48, `'9'` is byte 57).
pub open spec fn is_digit_byte(c: u8) -> bool {
    48 <= c <= 57
}

/// An ASCII hexadecimal digit, either case.
pub open spec fn is_hex_digit_byte(c: u8) -> bool {
    is_digit_byte(c) || (97 <= c <= 102) || (65 <= c <= 70)
}

/// The number written by a string of decimal digits, most significant first.
pub open spec fn dec_val(s: Seq<u8>) -> int
    decreases s.len(),
{
    if s.len() == 0 {
        0
    } else {
        dec_val(s.drop_last()) * 10 + (s.last() - 48)
    }
}

/// One dotted-quad part: one to three digits, no leading zero, value at most
/// 255.
pub open spec fn is_dec_octet(s: Seq<u8>) -> bool {
    &&& 1 <= s.len() <= 3
    &&& forall|i: int| 0 <= i < s.len() ==> is_digit_byte(#[trigger] s[i])
    &&& s.len() > 1 ==> s[0] != 48
    &&& dec_val(s) <= 255
}

/// One IPv6 group: one to four hexadecimal digits.
pub open spec fn is_hex_group(s: Seq<u8>) -> bool {
    &&& 1 <= s.len() <= 4
    &&& forall|i: int| 0 <= i < s.len() ==> is_hex_digit_byte(#[trigger] s[i])
}

/// An IPv4 literal: four dot-separated decimal octets (`'.'` is byte 46).
pub open spec fn is_ipv4_bytes(b: Seq<u8>) -> bool {
    let pieces = split_on(b, 46);
    pieces.len() == 4 && forall|j: int| 0 <= j < 4 ==> is_dec_octet(#[trigger] pieces[j])
}

// ---------------------------------------------------------------------------
// IPv6 literals (`':'` is byte 58).
// ---------------------------------------------------------------------------

/// The 16-bit words counted by the groups before the `::`, if any.
pub open spec fn head_words(pieces: Seq<Seq<u8>>, k: int) -> int {
    if pieces[0].len() == 0 {
        0
    } else {
        k
    }
}

/// The 16-bit words counted by the groups after the `::`, if any; a trailing
/// IPv4 literal counts as two words.
pub open spec fn tail_words(pieces: Seq<Seq<u8>>, k: int) -> int {
    let n = pieces.len() as int;
    if pieces[n - 1].len() == 0 {
        0
    } else {
        (n - 1 - k) + (if is_ipv4_bytes(pieces[n - 1]) {
            1int
        } else {
            0int
        })
    }
}

/// An IPv6 literal containing `::`, whose colon-split pieces are `pieces`:
/// `k` is the index of the empty piece the `::` makes.  Before it stand hex
/// groups (none when the string begins with `::`); after it stand hex groups,
/// the last of which may instead be an IPv4 literal (none when the string
/// ends with `::`).  The `::` stands for at least one zero word, so at most
/// seven words may be written out.
pub open spec fn dcolon_form(pieces: Seq<Seq<u8>>, k: int) -> bool {
    let n = pieces.len() as int;
    &&& 0 < k < n - 1
    &&& pieces[k].len() == 0
    &&& forall|j: int| 0 < j < n - 1 && j != k ==> (#[trigger] pieces[j]).len() > 0
    &&& (if pieces[0].len() == 0 {
        k == 1
    } else {
        forall|i: int| 0 <= i < k ==> is_hex_group(#[trigger] pieces[i])
    })
    &&& (if pieces[n - 1].len() == 0 {
        k == n - 2
    } else {
        &&& forall|i: int| k < i < n - 1 ==> is_hex_group(#[trigger] pieces[i])
        &&& (is_hex_group(pieces[n - 1]) || is_ipv4_bytes(pieces[n - 1]))
    })
    &&& head_words(pieces, k) + tail_words(pieces, k) <= 7
}

/// An IPv6 literal without `::`: eight hex groups, or six hex groups and a
/// trailing IPv4 literal standing for the last two words.
pub open spec fn plain_form(pieces: Seq<Seq<u8>>) -> bool {
    let n = pieces.len() as int;
    ||| n == 8 && (forall|j: int| 0 <= j < 8 ==> is_hex_group(#[trigger] pieces[j]))
    ||| n == 7 && (forall|j: int| 0 <= j < 6 ==> is_hex_group(#[trigger] pieces[j]))
        && is_ipv4_bytes(pieces[6])
}

/// An IPv6 literal.
pub open spec fn is_ipv6_bytes(b: Seq<u8>) -> bool {
    let pieces = split_on(b, 58);
    plain_form(pieces) || exists|k: int| dcolon_form(pieces, k)
}

/// Any `::` form fits in nine colon-split pieces.
proof fn lemma_dcolon_form_len(pieces: Seq<Seq<u8>>, k: int)
    requires
        dcolon_form(pieces, k),
    ensures
        pieces.len() <= 9,
{
    let n = pieces.len() as int;
    if pieces[0].len() == 0 {
        if pieces[n - 1].len() == 0 {
            assert(k == 1 && k == n - 2);
        } else {
            assert(tail_words(pieces, k) >= n - 1 - k);
        }
    } else {
        if pieces[n - 1].len() == 0 {
            assert(head_words(pieces, k) == k && k == n - 2);
        } else {
            assert(head_words(pieces, k) + tail_words(pieces, k) >= k + (n - 1 - k));
        }
    }
}

// ---------------------------------------------------------------------------
// Executable split.
// ---------------------------------------------------------------------------

/// Computes the piece boundaries of `split_on(b@, sep)`: piece `j` is
/// `b[r[j].0 .. r[j].1]`.
pub fn split_ranges(b: &Vec<u8>, sep: u8) -> (r: Vec<(usize, usize)>)
    ensures
        ({
            let pieces = split_on(b@, sep);
            &&& r@.len() == pieces.len()
            &&& r@.len() >= 1
            &&& forall|j: int|
                0 <= j < r@.len() ==> (#[trigger] r@[j]).0 <= r@[j].1 <= b@.len()
                    && b@.subrange(r@[j].0 as int, r@[j].1 as int) == pieces[j]
            &&& forall|j: int|
                0 <= j < r@.len() - 1 ==> (#[trigger] r@[j]).1 < b@.len() && b@[r@[j].1 as int]
                    == sep
            &&& r@[0].0 == 0
            &&& r@[r@.len() - 1].1 == b@.len()
            &&& all_sep_free(pieces, sep)
        }),
{
    let ghost bs = b@;
    let n = b.len();
    let mut r: Vec<(usize, usize)> = Vec::new();
    let ghost mut done: Seq<Seq<u8>> = Seq::empty();
    let mut start: usize = 0;
    let mut i: usize = 0;
    while i < n
        invariant
            n == bs.len(),
            bs == b@,
            start <= i <= n,
            r@.len() == done.len(),
            done.len() == 0 ==> start == 0,
            r@.len() >= 1 ==> r@[0].0 == 0,
            forall|j: int|
                0 <= j < r@.len() ==> (#[trigger] r@[j]).0 <= r@[j].1 < n && bs.subrange(
                    r@[j].0 as int,
                    r@[j].1 as int,
                ) == done[j] && bs[r@[j].1 as int] == sep,
            join_on(done.push(bs.subrange(start as int, i as int)), sep) == bs.take(i as int),
            sep_free(bs.subrange(start as int, i as int), sep),
            all_sep_free(done, sep),
        decreases n - i,
    {
        let ghost cur = bs.subrange(start as int, i as int);
        if b[i] == sep {
            r.push((start, i));
            proof {
                let done2 = done.push(cur);
                lemma_join_push(done2, Seq::<u8>::empty(), sep);
                assert(bs.subrange((i + 1) as int, (i + 1) as int) =~= Seq::<u8>::empty());
                assert(join_on(done2.push(Seq::<u8>::empty()), sep) =~= bs.take(i as int) + seq![
                    sep,
                ]);
                assert(bs.take((i + 1) as int) =~= bs.take(i as int) + seq![sep]);
                assert(all_sep_free(done2, sep)) by {
                    assert(forall|j: int| 0 <= j < done.len() ==> done2[j] == done[j]);
                    assert(done2[done.len() as int] == cur);
                }
                done = done2;
            }
            start = i + 1;
        } else {
            proof {
                let cur2 = bs.subrange(start as int, (i + 1) as int);
                assert(cur2 =~= cur.push(bs[i as int]));
                lemma_join_push(done, cur, sep);
                lemma_join_push(done, cur2, sep);
                if done.len() == 0 {
                    assert(join_on(done.push(cur2), sep) =~= bs.take(i as int).push(bs[i as int]));
                } else {
                    assert(join_on(done, sep) + seq![sep] + cur2 =~= (join_on(done, sep) + seq![sep]
                        + cur).push(bs[i as int]));
                }
                assert(bs.take((i + 1) as int) =~= bs.take(i as int).push(bs[i as int]));
                assert(sep_free(cur2, sep)) by {
                    assert(forall|t: int| 0 <= t < cur.len() ==> cur2[t] == cur[t]);
                }
            }
        }
        i += 1;
    }
    r.push((start, n));
    proof {
        let last = bs.subrange(start as int, n as int);
        let full = done.push(last);
        assert(bs.take(n as int) =~= bs);
        assert(join_on(full, sep) == bs);
        assert(full.len() >= 1);
        assert(all_sep_free(full, sep)) by {
            assert(forall|j: int| 0 <= j < done.len() ==> full[j] == done[j]);
            assert(full[done.len() as int] == last);
        }
        lemma_split_on_unique(bs, sep, full);
        assert(forall|j: int|
            0 <= j < r@.len() - 1 ==> r@[j] == (#[trigger] r@.subrange(0, r@.len() - 1)[j]));
        assert(r@[r@.len() - 1] == (start, n));
    }
    r
}

/// Copies `b[lo .. hi]` out as its own vector.
pub fn sub_vec(b: &Vec<u8>, lo: usize, hi: usize) -> (v: Vec<u8>)
    requires
        lo <= hi <= b@.len(),
    ensures
        v@ == b@.subrange(lo as int, hi as int),
{
    let s = vstd::slice::slice_subrange(b.as_slice(), lo, hi);
    vstd::slice::slice_to_vec(s)
}

// ---------------------------------------------------------------------------
// Executable piece checks.
// ---------------------------------------------------------------------------

/// Decides whether `b[lo .. hi]` is a decimal octet.
pub fn check_octet(b: &Vec<u8>, lo: usize, hi: usize) -> (r: bool)
    requires
        lo <= hi <= b@.len(),
    ensures
        r == is_dec_octet(b@.subrange(lo as int, hi as int)),
{
    let ghost s = b@.subrange(lo as int, hi as int);
    let len = hi - lo;
    if len < 1 || len > 3 {
        return false;
    }
    let mut i: usize = 0;
    while i < len
        invariant
            lo <= hi <= b@.len(),
            len == hi - lo,
            1 <= len <= 3,
            i <= len,
            s == b@.subrange(lo as int, hi as int),
            forall|t: int| 0 <= t < i ==> is_digit_byte(#[trigger] s[t]),
        decreases len - i,
    {
        let c = b[lo + i];
        assert(s[i as int] == c);
        if c < 48 || c > 57 {
            return false;
        }
        i += 1;
    }
    if len > 1 && b[lo] == 48 {
        assert(s[0] == 48);
        return false;
    }
    let mut v: u32 = 0;
    let mut j: usize = 0;
    while j < len
        invariant
            lo <= hi <= b@.len(),
            len == hi - lo,
            1 <= len <= 3,
            j <= len,
            s == b@.subrange(lo as int, hi as int),
            forall|t: int| 0 <= t < len ==> is_digit_byte(#[trigger] s[t]),
            v == dec_val(b@.subrange(lo as int, (lo + j) as int)),
            j == 0 ==> v == 0,
            j == 1 ==> v <= 9,
            j == 2 ==> v <= 99,
            j == 3 ==> v <= 999,
        decreases len - j,
    {
        let c = b[lo + j];
        assert(s[j as int] == c);
        proof {
            let p = b@.subrange(lo as int, (lo + j) as int);
            let p2 = b@.subrange(lo as int, (lo + j + 1) as int);
            assert(p2.drop_last() =~= p);
            assert(p2.last() == c);
        }
        v = v * 10 + ((c - 48) as u32);
        j += 1;
    }
    assert(b@.subrange(lo as int, (lo + len) as int) == s);
    v <= 255
}

/// Decides whether `b[lo .. hi]` is a hexadecimal group.
pub fn check_hex_group(b: &Vec<u8>, lo: usize, hi: usize) -> (r: bool)
    requires
        lo <= hi <= b@.len(),
    ensures
        r == is_hex_group(b@.subrange(lo as int, hi as int)),
{
    let ghost s = b@.subrange(lo as int, hi as int);
    let len = hi - lo;
    if len < 1 || len > 4 {
        return false;
    }
    let mut i: usize = 0;
    while i < len
        invariant
            lo <= hi <= b@.len(),
            len == hi - lo,
            1 <= len <= 4,
            i <= len,
            s == b@.subrange(lo as int, hi as int),
            forall|t: int| 0 <= t < i ==> is_hex_digit_byte(#[trigger] s[t]),
        decreases len - i,
    {
        let c = b[lo + i];
        assert(s[i as int] == c);
        if !((48 <= c && c <= 57) || (97 <= c && c <= 102) || (65 <= c && c <= 70)) {
            return false;
        }
        i += 1;
    }
    true
}

/// Decides whether the whole of `b` is an IPv4 literal.
pub fn check_ipv4(b: &Vec<u8>) -> (r: bool)
    ensures
        r == is_ipv4_bytes(b@),
{
    let ghost pieces = split_on(b@, 46);
    let ranges = split_ranges(b, 46);
    if ranges.len() != 4 {
        return false;
    }
    let mut j: usize = 0;
    while j < 4
        invariant
            ranges@.len() == 4,
            pieces == split_on(b@, 46),
            pieces.len() == 4,
            forall|t: int|
                0 <= t < 4 ==> (#[trigger] ranges@[t]).0 <= ranges@[t].1 <= b@.len()
                    && b@.subrange(ranges@[t].0 as int, ranges@[t].1 as int) == pieces[t],
            j <= 4,
            forall|t: int| 0 <= t < j ==> is_dec_octet(#[trigger] pieces[t]),
        decreases 4 - j,
    {
        let (lo, hi) = ranges[j];
        if !check_octet(b, lo, hi) {
            return false;
        }
        j += 1;
    }
    true
}

/// Decides whether pieces `lo` (inclusive) to `hi` (exclusive) are all
/// hexadecimal groups.
fn all_hex_pieces(
    b: &Vec<u8>,
    ranges: &Vec<(usize, usize)>,
    lo: usize,
    hi: usize,
    Ghost(pieces): Ghost<Seq<Seq<u8>>>,
) -> (r: bool)
    requires
        lo <= hi <= ranges@.len(),
        forall|j: int|
            lo <= j < hi ==> (#[trigger] ranges@[j]).0 <= ranges@[j].1 <= b@.len() && b@.subrange(
                ranges@[j].0 as int,
                ranges@[j].1 as int,
            ) == pieces[j],
    ensures
        r == (forall|j: int| lo <= j < hi ==> is_hex_group(#[trigger] pieces[j])),
{
    let mut j: usize = lo;
    while j < hi
        invariant
            lo <= j <= hi <= ranges@.len(),
            forall|t: int|
                lo <= t < hi ==> (#[trigger] ranges@[t]).0 <= ranges@[t].1 <= b@.len()
                    && b@.subrange(ranges@[t].0 as int, ranges@[t].1 as int) == pieces[t],
            forall|t: int| lo <= t < j ==> is_hex_group(#[trigger] pieces[t]),
        decreases hi - j,
    {
        let (plo, phi) = ranges[j];
        if !check_hex_group(b, plo, phi) {
            assert(!is_hex_group(pieces[j as int]));
            return false;
        }
        j += 1;
    }
    true
}

/// Decides whether the whole of `b` is an IPv6 literal.
pub fn check_ipv6(b: &Vec<u8>) -> (r: bool)
    ensures
        r == is_ipv6_bytes(b@),
{
    let ghost pieces = split_on(b@, 58);
    let ranges = split_ranges(b, 58);
    let n = ranges.len();
    if n > 9 {
        proof {
            assert forall|k: int| !dcolon_form(pieces, k) by {
                if dcolon_form(pieces, k) {
                    lemma_dcolon_form_len(pieces, k);
                }
            }
        }
        return false;
    }
    // Find the interior empty pieces; a `::` shows as exactly one of them.
    let mut empties: Vec<usize> = Vec::new();
    let mut j: usize = 1;
    while j + 1 < n
        invariant
            n == ranges@.len(),
            n <= 9,
            pieces == split_on(b@, 58),
            pieces.len() == n,
            forall|t: int|
                0 <= t < n ==> (#[trigger] ranges@[t]).0 <= ranges@[t].1 <= b@.len()
                    && b@.subrange(ranges@[t].0 as int, ranges@[t].1 as int) == pieces[t],
            1 <= j,
            n >= 2 ==> j <= n - 1,
            n < 2 ==> j == 1,
            forall|u: int|
                0 <= u < empties@.len() ==> 1 <= (#[trigger] empties@[u]) < j && pieces[empties@[u] as int].len()
                    == 0,
            forall|u1: int, u2: int|
                0 <= u1 < u2 < empties@.len() ==> empties@[u1] < empties@[u2],
            forall|t: int|
                1 <= t < j && pieces[t].len() == 0 ==> exists|u: int|
                    0 <= u < empties@.len() && empties@[u] == t,
        decreases n - j,
    {
        if ranges[j].0 == ranges[j].1 {
            assert(pieces[j as int].len() == 0);
            let ghost old_empties = empties@;
            empties.push(j);
            proof {
                assert(empties@ == old_empties.push(j));
                assert forall|t: int|
                    1 <= t < j + 1 && pieces[t].len() == 0 implies exists|u: int|
                    0 <= u < empties@.len() && empties@[u] == t by {
                    if t < j {
                        let u0 = choose|u: int|
                            0 <= u < old_empties.len() && old_empties[u] == t;
                        assert(empties@[u0] == t);
                    } else {
                        assert(empties@[old_empties.len() as int] == t);
                    }
                }
            }
        } else {
            assert(pieces[j as int].len() > 0);
        }
        j += 1;
    }
    proof {
        assert(forall|t: int|
            1 <= t < n - 1 && (#[trigger] pieces[t]).len() == 0 ==> exists|u: int|
                0 <= u < empties@.len() && empties@[u] == t);
    }
    if empties.len() >= 2 {
        proof {
            let e1 = empties@[0] as int;
            let e2 = empties@[1] as int;
            assert(e1 < e2);
            assert(1 <= e1 < n - 1 && 1 <= e2 < n - 1);
            assert(pieces[e1].len() == 0 && pieces[e2].len() == 0);
            assert forall|k: int| !dcolon_form(pieces, k) by {
                if dcolon_form(pieces, k) {
                    if k == e1 {
                        assert(pieces[e2].len() > 0);
                    } else {
                        assert(pieces[e1].len() > 0);
                    }
                }
            }
            assert(!plain_form(pieces)) by {
                if plain_form(pieces) {
                    assert(is_hex_group(pieces[e1]));
                }
            }
        }
        return false;
    }
    if empties.len() == 0 {
        proof {
            assert forall|k: int| !dcolon_form(pieces, k) by {
                if dcolon_form(pieces, k) {
                    assert(pieces[k].len() == 0);
                    assert(0 < k < n - 1);
                }
            }
        }
        if n == 8 {
            let all_hex = all_hex_pieces(b, &ranges, 0, 8, Ghost(pieces));
            return all_hex;
        }
        if n == 7 {
            let first_hex = all_hex_pieces(b, &ranges, 0, 6, Ghost(pieces));
            if !first_hex {
                return false;
            }
            let (llo, lhi) = ranges[6];
            let lastp = sub_vec(b, llo, lhi);
            let last_v4 = check_ipv4(&lastp);
            assert(last_v4 == is_ipv4_bytes(pieces[6]));
            return last_v4;
        }
        return false;
    }
    // Exactly one interior empty piece: the destination holds one `::`.
    let k = empties[0];
    proof {
        assert(empties@.len() == 1);
        assert(1 <= k < n - 1);
        assert(pieces[k as int].len() == 0);
        assert forall|t: int| 1 <= t < n - 1 && (#[trigger] pieces[t]).len() == 0 implies t
            == k as int by {
            let u = choose|u: int| 0 <= u < empties@.len() && empties@[u] == t;
            assert(u == 0);
        }
        assert(!plain_form(pieces)) by {
            if plain_form(pieces) {
                assert(is_hex_group(pieces[k as int]));
            }
        }
    }
    let first_nonempty = ranges[0].1 > ranges[0].0;
    let last_nonempty = ranges[n - 1].1 > ranges[n - 1].0;
    proof {
        assert(first_nonempty == (pieces[0].len() > 0));
        assert(last_nonempty == (pieces[n - 1].len() > 0));
    }
    let head_ok: bool = if first_nonempty {
        all_hex_pieces(b, &ranges, 0, k, Ghost(pieces))
    } else {
        k == 1
    };
    let mut last_v4: bool = false;
    let tail_ok: bool;
    if last_nonempty {
        let mid_ok = all_hex_pieces(b, &ranges, k + 1, n - 1, Ghost(pieces));
        let (llo, lhi) = ranges[n - 1];
        let last_hex = check_hex_group(b, llo, lhi);
        let lastp = sub_vec(b, llo, lhi);
        last_v4 = check_ipv4(&lastp);
        assert(last_hex == is_hex_group(pieces[n - 1]));
        assert(last_v4 == is_ipv4_bytes(pieces[n - 1]));
        tail_ok = mid_ok && (last_hex || last_v4);
    } else {
        tail_ok = k == n - 2;
    }
    let hw: usize = if first_nonempty {
        k
    } else {
        0
    };
    let tw: usize = if last_nonempty {
        (n - 1 - k) + (if last_v4 {
            1
        } else {
            0
        })
    } else {
        0
    };
    let ok = head_ok && tail_ok && hw + tw <= 7;
    proof {
        assert(hw as int == head_words(pieces, k as int));
        assert(tw as int == tail_words(pieces, k as int));
        if ok {
            assert(dcolon_form(pieces, k as int));
        } else {
            assert(!dcolon_form(pieces, k as int)) by {
                if dcolon_form(pieces, k as int) {
                    assert(head_ok);
                    assert(tail_ok);
                    assert(head_words(pieces, k as int) + tail_words(pieces, k as int) <= 7);
                }
            }
            assert forall|k2: int| !dcolon_form(pieces, k2) by {
                if dcolon_form(pieces, k2) {
                    assert(0 < k2 < n - 1);
                    assert(pieces[k2].len() == 0);
                    assert(k2 == k as int);
                }
            }
        }
    }
    ok
}

// ---------------------------------------------------------------------------
// Classification of a destination.
// ---------------------------------------------------------------------------

/// The outcome of classifying a destination string.
#[derive(Clone, Copy, PartialEq, Eq, Structural, Debug)]
pub enum AddressClass {
    /// The host portion is an IPv4 literal; `explicit_port` says whether a
    /// `:` follows it, in which case the destination carries its own port.
    Ipv4 { explicit_port: bool },
    /// The whole destination is an IPv6 literal (always the default port).
    Ipv6,
    /// Not an IP literal; the transport refuses such a destination.
    Invalid,
}

/// The destination string as the bytes this module classifies.
pub open spec fn dest_bytes(s: Seq<char>) -> Seq<u8> {
    vstd::utf8::encode_utf8(s)
}

/// The host portion: everything before the first `:`, or the whole string.
pub open spec fn host_part(b: Seq<u8>) -> Seq<u8> {
    split_on(b, 58)[0]
}

/// Whether the destination holds a `:` at all.
pub open spec fn has_port_separator(b: Seq<u8>) -> bool {
    exists|i: int| 0 <= i < b.len() && b[i] == 58
}

/// How a destination is classified: an IPv4 host portion wins, then an IPv6
/// literal, and anything else is unsupported.
pub open spec fn address_class(b: Seq<u8>) -> AddressClass {
    if is_ipv4_bytes(host_part(b)) {
        AddressClass::Ipv4 { explicit_port: has_port_separator(b) }
    } else if is_ipv6_bytes(b) {
        AddressClass::Ipv6
    } else {
        AddressClass::Invalid
    }
}

/// Classifies a destination string.
pub fn classify(addr: &str) -> (c: AddressClass)
    ensures
        c == address_class(dest_bytes(addr@)),
{
    let bytes: Vec<u8> = vstd::slice::slice_to_vec(addr.as_bytes());
    proof {
        assert(bytes@ == dest_bytes(addr@));
    }
    let ranges = split_ranges(&bytes, 58);
    let host = sub_vec(&bytes, ranges[0].0, ranges[0].1);
    proof {
        assert(host@ == host_part(bytes@));
    }
    if check_ipv4(&host) {
        let explicit = ranges.len() > 1;
        proof {
            if ranges@.len() > 1 {
                assert(bytes@[ranges@[0].1 as int] == 58);
            } else {
                assert(ranges@[0].0 == 0 && ranges@[0].1 == bytes@.len());
                assert(sep_free(bytes@.subrange(0, bytes@.len() as int), 58));
                assert forall|i: int| 0 <= i < bytes@.len() implies bytes@[i] != 58 by {
                    assert(bytes@.subrange(0, bytes@.len() as int)[i] == bytes@[i]);
                }
            }
        }
        AddressClass::Ipv4 { explicit_port: explicit }
    } else if check_ipv6(&bytes) {
        AddressClass::Ipv6
    } else {
        AddressClass::Invalid
    }
}

// ---------------------------------------------------------------------------
// Laws of classification.
// ---------------------------------------------------------------------------

/// A hexadecimal group holds no dot.
proof fn lemma_hex_group_dot_free(s: Seq<u8>)
    requires
        is_hex_group(s),
    ensures
        sep_free(s, 46),
{
}

/// Law: a destination that is a bare IPv4 literal, with no port separator,
/// classifies as IPv4 with the default port.
pub proof fn lemma_bare_ipv4_default_port(b: Seq<u8>)
    requires
        is_ipv4_bytes(b),
        !has_port_separator(b),
    ensures
        address_class(b) == (AddressClass::Ipv4 { explicit_port: false }),
{
    assert(sep_free(b, 58));
    lemma_split_on_sep_free(b, 58);
    assert(host_part(b) == b);
}

/// Law: a destination whose host portion is an IPv4 literal and which holds
/// a port separator classifies as IPv4 with the port taken as given.
pub proof fn lemma_ipv4_with_explicit_port(b: Seq<u8>)
    requires
        is_ipv4_bytes(host_part(b)),
        has_port_separator(b),
    ensures
        address_class(b) == (AddressClass::Ipv4 { explicit_port: true }),
{
}

/// Law: an IPv6 literal never has an IPv4 host portion, so every IPv6
/// literal classifies as IPv6.
pub proof fn lemma_ipv6_classifies_as_ipv6(b: Seq<u8>)
    requires
        is_ipv6_bytes(b),
    ensures
        !is_ipv4_bytes(host_part(b)),
        address_class(b) == AddressClass::Ipv6,
{
    let pieces = split_on(b, 58);
    lemma_split_on_len(b, 58);
    let h = pieces[0];
    if h.len() == 0 {
        assert(sep_free(h, 46));
    } else {
        assert(is_hex_group(h)) by {
            if plain_form(pieces) {
            } else {
                let k = choose|k: int| dcolon_form(pieces, k);
                assert(dcolon_form(pieces, k));
            }
        }
        lemma_hex_group_dot_free(h);
    }
    lemma_split_on_sep_free(h, 46);
    assert(split_on(h, 46).len() == 1);
}

/// Law: a destination that is neither kind of IP literal classifies as
/// invalid, and the transport then refuses it without touching a socket.
pub proof fn lemma_non_literal_is_invalid(b: Seq<u8>)
    requires
        !is_ipv4_bytes(host_part(b)),
        !is_ipv6_bytes(b),
    ensures
        address_class(b) == AddressClass::Invalid,
{
}

} // verus!
