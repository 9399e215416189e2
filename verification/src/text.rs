//! Byte-level text utilities: splitting on a separator byte, line
//! splitting, whitespace tokenising, and substring search, each with a
//! mathematical specification over `Seq<u8>`.

use vstd::prelude::*;

verus! {

/// `.` separates the labels of a rule or domain.
pub const DOT: u8 = 46;
/// `\n` separates the lines of a list file.
pub const NEWLINE: u8 = 10;
/// `\r` is stripped from the end of a line.
pub const CARRIAGE: u8 = 13;
/// `!` marks an exception rule.
pub const BANG: u8 = 33;
/// `*` is the wildcard label.
pub const STAR: u8 = 42;
/// `/` starts a comment line when doubled.
pub const SLASH: u8 = 47;

/// ASCII whitespace, as used to delimit the rule token on a line.
pub open spec fn is_space(b: u8) -> bool {
    b == 32 || b == 9 || b == 10 || b == 11 || b == 12 || b == 13
}

/// The pieces of `s` between occurrences of the separator `d`, left to
/// right.  A string without the separator is one piece; every separator
/// ends a piece, so `n` separators give `n + 1` pieces.
pub open spec fn split_on(s: Seq<u8>, d: u8) -> Seq<Seq<u8>>
    decreases s.len(),
{
    if s.len() == 0 {
        seq![s]
    } else if s.last() == d {
        split_on(s.drop_last(), d).push(Seq::empty())
    } else {
        let r = split_on(s.drop_last(), d);
        r.update(r.len() - 1, r.last().push(s.last()))
    }
}

/// The byte cost of the pieces `ps[i..]`: each piece counts its own
/// length plus one separator byte.
pub open spec fn tail_bytes(ps: Seq<Seq<u8>>, i: int) -> int
    decreases ps.len() - i,
{
    if i < 0 || i >= ps.len() {
        0
    } else {
        ps[i].len() + 1 + tail_bytes(ps, i + 1)
    }
}

pub proof fn lemma_split_on_nonempty(s: Seq<u8>, d: u8)
    ensures
        split_on(s, d).len() >= 1,
    decreases s.len(),
{
    if s.len() > 0 {
        lemma_split_on_nonempty(s.drop_last(), d);
    }
}

/// Splitting distributes over an occurrence of the separator.
pub proof fn lemma_split_on_at(s: Seq<u8>, d: u8, k: int)
    requires
        0 <= k < s.len(),
        s[k] == d,
    ensures
        split_on(s, d) == split_on(s.subrange(0, k), d) + split_on(
            s.subrange(k + 1, s.len() as int),
            d,
        ),
    decreases s.len(),
{
    lemma_split_on_nonempty(s.subrange(k + 1, s.len() as int), d);
    if k == s.len() - 1 {
        assert(s.subrange(k + 1, s.len() as int) =~= Seq::<u8>::empty());
        assert(s.subrange(0, k) =~= s.drop_last());
        assert(split_on(s.subrange(k + 1, s.len() as int), d) =~= seq![Seq::<u8>::empty()]);
        assert(split_on(s, d) =~= split_on(s.subrange(0, k), d) + split_on(
            s.subrange(k + 1, s.len() as int),
            d,
        ));
    } else {
        let t = s.drop_last();
        lemma_split_on_at(t, d, k);
        assert(t.subrange(0, k) =~= s.subrange(0, k));
        assert(t.subrange(k + 1, t.len() as int) =~= s.subrange(k + 1, s.len() as int).drop_last());
        let right = s.subrange(k + 1, s.len() as int);
        if s.last() == d {
            assert(right.len() > 0 && right.last() == d);
            assert(split_on(s, d) =~= split_on(s.subrange(0, k), d) + split_on(right, d));
        } else {
            let rt = split_on(t, d);
            let rr = split_on(right.drop_last(), d);
            lemma_split_on_nonempty(right.drop_last(), d);
            assert(right.len() > 0 && right.last() == s.last());
            assert(rt == split_on(s.subrange(0, k), d) + rr);
            assert(rt.len() == split_on(s.subrange(0, k), d).len() + rr.len());
            assert(rt.last() == rr.last());
            assert(split_on(s, d) == rt.update(rt.len() - 1, rt.last().push(s.last())));
            assert(split_on(right, d) == rr.update(rr.len() - 1, rr.last().push(s.last())));
            assert(rt.update(rt.len() - 1, rt.last().push(s.last())) =~= split_on(
                s.subrange(0, k),
                d,
            ) + rr.update(rr.len() - 1, rr.last().push(s.last())));
        }
    }
}

/// A string free of the separator splits into itself alone.
pub proof fn lemma_split_on_none(s: Seq<u8>, d: u8)
    requires
        forall|i: int| 0 <= i < s.len() ==> s[i] != d,
    ensures
        split_on(s, d) == seq![s],
    decreases s.len(),
{
    if s.len() > 0 {
        lemma_split_on_none(s.drop_last(), d);
        assert(split_on(s, d) =~= seq![s.drop_last().push(s.last())]);
        assert(s.drop_last().push(s.last()) =~= s);
    }
}

pub proof fn lemma_tail_bytes_push(ps: Seq<Seq<u8>>, x: Seq<u8>, i: int)
    requires
        0 <= i <= ps.len(),
    ensures
        tail_bytes(ps.push(x), i) == tail_bytes(ps, i) + x.len() + 1,
    decreases ps.len() - i,
{
    if i == ps.len() {
        assert(tail_bytes(ps.push(x), i) == x.len() + 1 + tail_bytes(ps.push(x), i + 1));
    } else {
        lemma_tail_bytes_push(ps, x, i + 1);
    }
}

pub proof fn lemma_tail_bytes_update(ps: Seq<Seq<u8>>, j: int, y: Seq<u8>, i: int)
    requires
        0 <= i <= j < ps.len(),
    ensures
        tail_bytes(ps.update(j, y), i) == tail_bytes(ps, i) - ps[j].len() + y.len(),
    decreases ps.len() - i,
{
    if i < j {
        lemma_tail_bytes_update(ps, j, y, i + 1);
    } else {
        assert(tail_bytes(ps.update(j, y), j + 1) == tail_bytes(ps, j + 1)) by {
            lemma_tail_bytes_frame(ps.update(j, y), ps, j + 1);
        }
    }
}

/// Two piece sequences that agree from `i` on have the same tail cost.
pub proof fn lemma_tail_bytes_frame(a: Seq<Seq<u8>>, b: Seq<Seq<u8>>, i: int)
    requires
        a.len() == b.len(),
        forall|j: int| i <= j < a.len() ==> a[j] == b[j],
    ensures
        tail_bytes(a, i) == tail_bytes(b, i),
    decreases a.len() - i,
{
    if 0 <= i && i < a.len() {
        lemma_tail_bytes_frame(a, b, i + 1);
    }
}

/// The pieces of a split account for every byte of the string plus one
/// closing separator.
pub proof fn lemma_split_on_bytes(s: Seq<u8>, d: u8)
    ensures
        tail_bytes(split_on(s, d), 0) == s.len() + 1,
    decreases s.len(),
{
    if s.len() == 0 {
        assert(split_on(s, d) == seq![s]);
        assert(tail_bytes(seq![s], 1) == 0);
    } else {
        lemma_split_on_bytes(s.drop_last(), d);
        let r = split_on(s.drop_last(), d);
        lemma_split_on_nonempty(s.drop_last(), d);
        if s.last() == d {
            lemma_tail_bytes_push(r, Seq::empty(), 0);
        } else {
            lemma_tail_bytes_update(r, r.len() - 1, r.last().push(s.last()), 0);
        }
    }
}

/// Dropping the first piece shifts the tail cost index by one.
pub proof fn lemma_tail_bytes_shift_at(ps: Seq<Seq<u8>>, i: int)
    requires
        ps.len() > 0,
        1 <= i <= ps.len(),
    ensures
        tail_bytes(ps, i) == tail_bytes(ps.drop_first(), i - 1),
    decreases ps.len() - i,
{
    if i < ps.len() {
        lemma_tail_bytes_shift_at(ps, i + 1);
    }
}

pub proof fn lemma_tail_bytes_shift(ps: Seq<Seq<u8>>)
    requires
        ps.len() > 0,
    ensures
        tail_bytes(ps, 1) == tail_bytes(ps.drop_first(), 0),
{
    lemma_tail_bytes_shift_at(ps, 1);
}

pub proof fn lemma_tail_bytes_reverse(ps: Seq<Seq<u8>>)
    ensures
        tail_bytes(ps.reverse(), 0) == tail_bytes(ps, 0),
    decreases ps.len(),
{
    if ps.len() == 0 {
        assert(ps.reverse() =~= ps);
    } else {
        lemma_tail_bytes_reverse(ps.drop_first());
        assert(ps.reverse() =~= ps.drop_first().reverse().push(ps.first()));
        lemma_tail_bytes_push(ps.drop_first().reverse(), ps.first(), 0);
        assert(tail_bytes(ps, 0) == ps.first().len() + 1 + tail_bytes(ps, 1));
        lemma_tail_bytes_shift(ps);
    }
}

/// Every tail cost is non-negative.
pub proof fn lemma_tail_bytes_nonneg(ps: Seq<Seq<u8>>, i: int)
    ensures
        tail_bytes(ps, i) >= 0,
    decreases ps.len() - i,
{
    if 0 <= i && i < ps.len() {
        lemma_tail_bytes_nonneg(ps, i + 1);
    }
}

/// A line with a trailing carriage return loses it.
pub open spec fn strip_cr(line: Seq<u8>) -> Seq<u8> {
    if line.len() > 0 && line.last() == CARRIAGE {
        line.drop_last()
    } else {
        line
    }
}

/// The lines of a text: pieces between newlines, without a final empty
/// piece after a closing newline, each stripped of a trailing `\r`.
pub open spec fn spec_lines(s: Seq<u8>) -> Seq<Seq<u8>> {
    let ps = split_on(s, NEWLINE);
    let ps2 = if ps.last().len() == 0 {
        ps.drop_last()
    } else {
        ps
    };
    Seq::new(ps2.len(), |i: int| strip_cr(ps2[i]))
}

/// What is left of `s` after its leading whitespace.
pub open spec fn spec_skip_ws(s: Seq<u8>) -> Seq<u8>
    decreases s.len(),
{
    if s.len() == 0 || !is_space(s.first()) {
        s
    } else {
        spec_skip_ws(s.drop_first())
    }
}

/// The longest whitespace-free prefix of `s`.
pub open spec fn spec_take_tok(s: Seq<u8>) -> Seq<u8>
    decreases s.len(),
{
    if s.len() == 0 || is_space(s.first()) {
        Seq::empty()
    } else {
        seq![s.first()] + spec_take_tok(s.drop_first())
    }
}

/// The first whitespace-delimited token of a line, if any.
pub open spec fn spec_first_token(s: Seq<u8>) -> Option<Seq<u8>> {
    let t = spec_skip_ws(s);
    if t.len() == 0 {
        None
    } else {
        Some(spec_take_tok(t))
    }
}

/// Does `pat` occur contiguously inside `s`?
pub open spec fn has_subseq(s: Seq<u8>, pat: Seq<u8>) -> bool {
    exists|k: int|
        0 <= k && k + pat.len() <= s.len() && #[trigger] s.subrange(k, k + pat.len()) == pat
}

/// Does the byte `b` occur in `s`?
pub open spec fn contains_byte(s: Seq<u8>, b: u8) -> bool {
    exists|i: int| 0 <= i < s.len() && s[i] == b
}

pub proof fn lemma_skip_ws_at(s: Seq<u8>, a: int)
    requires
        0 <= a <= s.len(),
        forall|i: int| 0 <= i < a ==> is_space(s[i]),
        a < s.len() ==> !is_space(s[a]),
    ensures
        spec_skip_ws(s) == s.subrange(a, s.len() as int),
    decreases a,
{
    if a == 0 {
        assert(s.subrange(0, s.len() as int) =~= s);
    } else {
        assert(is_space(s.first()));
        lemma_skip_ws_at(s.drop_first(), a - 1);
        assert(s.drop_first().subrange(a - 1, s.drop_first().len() as int) =~= s.subrange(
            a,
            s.len() as int,
        ));
    }
}

pub proof fn lemma_take_tok_at(s: Seq<u8>, b: int)
    requires
        0 <= b <= s.len(),
        forall|i: int| 0 <= i < b ==> !is_space(s[i]),
        b < s.len() ==> is_space(s[b]),
    ensures
        spec_take_tok(s) == s.subrange(0, b),
    decreases b,
{
    if b == 0 {
        assert(s.subrange(0, 0) =~= Seq::<u8>::empty());
    } else {
        assert(!is_space(s.first()));
        lemma_take_tok_at(s.drop_first(), b - 1);
        assert(s.drop_first().subrange(0, b - 1) =~= s.subrange(1, b));
        assert(seq![s.first()] + s.subrange(1, b) =~= s.subrange(0, b));
    }
}

/// Copies `s[from..to]` into a fresh vector.
pub fn copy_range(s: &[u8], from: usize, to: usize) -> (r: Vec<u8>)
    requires
        from <= to <= s@.len(),
    ensures
        r@ == s@.subrange(from as int, to as int),
{
    let mut r: Vec<u8> = Vec::new();
    let mut i: usize = from;
    while i < to
        invariant
            from <= i <= to <= s@.len(),
            r@ == s@.subrange(from as int, i as int),
        decreases to - i,
    {
        r.push(s[i]);
        proof {
            assert(r@ =~= s@.subrange(from as int, i + 1));
        }
        i = i + 1;
    }
    r
}

/// Byte-for-byte equality of two slices.
pub fn bytes_eq(a: &[u8], b: &[u8]) -> (r: bool)
    ensures
        r == (a@ == b@),
{
    if a.len() != b.len() {
        return false;
    }
    let mut i: usize = 0;
    while i < a.len()
        invariant
            0 <= i <= a@.len(),
            a@.len() == b@.len(),
            forall|j: int| 0 <= j < i ==> a@[j] == b@[j],
        decreases a@.len() - i,
    {
        if a[i] != b[i] {
            return false;
        }
        i = i + 1;
    }
    proof {
        assert(a@ =~= b@);
    }
    true
}

/// Splits `s` on the separator `d`, left to right.
pub fn split_bytes(s: &[u8], d: u8) -> (r: Vec<Vec<u8>>)
    ensures
        r.deep_view() == split_on(s@, d),
        r@.len() >= 1,
{
    let ghost sv = s@;
    let mut r: Vec<Vec<u8>> = Vec::new();
    let mut start: usize = 0;
    let mut j: usize = 0;
    while j < s.len()
        invariant
            0 <= start <= j <= sv.len(),
            sv == s@,
            start == 0 ==> r@.len() == 0,
            start > 0 ==> sv[start - 1] == d && r.deep_view() == split_on(
                sv.subrange(0, start - 1),
                d,
            ),
            forall|t: int| start <= t < j ==> sv[t] != d,
        decreases s@.len() - j,
    {
        if s[j] == d {
            let piece = copy_range(s, start, j);
            proof {
                if start == 0 {
                    lemma_split_on_none(sv.subrange(0, j as int), d);
                } else {
                    lemma_split_on_at(sv.subrange(0, j as int), d, start - 1);
                    assert(sv.subrange(0, j as int).subrange(0, start - 1) =~= sv.subrange(
                        0,
                        start - 1,
                    ));
                    let mid = sv.subrange(0, j as int).subrange(start as int, j as int);
                    assert(mid =~= sv.subrange(start as int, j as int));
                    lemma_split_on_none(mid, d);
                }
                assert(piece@ == sv.subrange(start as int, j as int));
            }
            r.push(piece);
            proof {
                assert(r.deep_view() =~~= split_on(sv.subrange(0, j as int), d));
            }
            start = j + 1;
        }
        j = j + 1;
    }
    let piece = copy_range(s, start, s.len());
    proof {
        if start == 0 {
            lemma_split_on_none(sv, d);
            assert(piece@ =~= sv);
        } else {
            lemma_split_on_at(sv, d, start - 1);
            let mid = sv.subrange(start as int, sv.len() as int);
            lemma_split_on_none(mid, d);
        }
    }
    r.push(piece);
    proof {
        assert(r.deep_view() =~~= split_on(sv, d));
    }
    r
}

/// Reverses the order of the pieces, consuming the input.
pub fn reverse_pieces(v: Vec<Vec<u8>>) -> (r: Vec<Vec<u8>>)
    ensures
        r.deep_view() == v.deep_view().reverse(),
{
    let ghost orig = v.deep_view();
    let mut v = v;
    let mut r: Vec<Vec<u8>> = Vec::new();
    proof {
        assert(v.deep_view() =~~= orig.subrange(0, v@.len() as int));
        assert(r.deep_view() =~~= orig.subrange(orig.len() as int, orig.len() as int).reverse());
    }
    while v.len() > 0
        invariant
            v.deep_view() == orig.subrange(0, v@.len() as int),
            r.deep_view() == orig.subrange(v@.len() as int, orig.len() as int).reverse(),
            v@.len() <= orig.len(),
        decreases v@.len(),
    {
        let ghost k = v@.len() as int;
        let ghost old_v = v;
        let x = v.pop().unwrap();
        proof {
            assert(v.deep_view() =~~= orig.subrange(0, k - 1)) by {
                assert(forall|t: int|
                    0 <= t < k - 1 ==> v.deep_view()[t] == old_v.deep_view()[t]);
            }
            assert(x.deep_view() == old_v.deep_view()[k - 1]);
            assert(x@ =~= orig[k - 1]);
        }
        let ghost old_r = r;
        r.push(x);
        proof {
            let n = orig.len() as int;
            assert(old_r.deep_view() == orig.subrange(k, n).reverse());
            assert(old_r.deep_view().len() == old_r@.len());
            assert(old_r@.len() == n - k);
            assert(r@.len() == old_r@.len() + 1);
            assert(r.deep_view().len() == n - k + 1);
            assert forall|t: int| 0 <= t <= n - k implies r.deep_view()[t] == orig.subrange(
                k - 1,
                n,
            ).reverse()[t] by {
                assert(orig.subrange(k - 1, n).reverse()[t] == orig.subrange(k - 1, n)[n - k - t]);
                assert(orig.subrange(k - 1, n)[n - k - t] == orig[n - 1 - t]);
                if t < n - k {
                    assert(r.deep_view()[t] == old_r.deep_view()[t]);
                    assert(old_r.deep_view()[t] == orig.subrange(k, n).reverse()[t]);
                    assert(orig.subrange(k, n).reverse()[t] == orig.subrange(k, n)[n - k - 1 - t]);
                } else {
                    assert(r.deep_view()[t] == x.deep_view());
                }
            }
            assert(r.deep_view() =~= orig.subrange(k - 1, n).reverse());
        }
    }
    proof {
        assert(orig.subrange(0, orig.len() as int) =~= orig);
        assert(r.deep_view() =~~= orig.reverse());
    }
    r
}

/// Splits a text into its lines, as `spec_lines` describes.
pub fn split_lines(s: &[u8]) -> (r: Vec<Vec<u8>>)
    ensures
        r.deep_view() == spec_lines(s@),
{
    let mut ps = split_bytes(s, NEWLINE);
    let ghost psv = ps.deep_view();
    proof {
        assert(ps@[ps@.len() - 1].deep_view() == psv.last());
    }
    if ps[ps.len() - 1].len() == 0 {
        ps.pop();
        proof {
            assert(psv.last().len() == 0);
            assert(ps.deep_view() =~~= psv.drop_last());
        }
    } else {
        proof {
            assert(psv.last().len() > 0);
        }
    }
    let ghost ps2 = if psv.last().len() == 0 {
        psv.drop_last()
    } else {
        psv
    };
    proof {
        assert(ps.deep_view() == ps2);
    }
    let mut out: Vec<Vec<u8>> = Vec::new();
    let mut i: usize = 0;
    while i < ps.len()
        invariant
            0 <= i <= ps@.len(),
            ps.deep_view() == ps2,
            out@.len() == i,
            forall|t: int| 0 <= t < i ==> out.deep_view()[t] == strip_cr(ps2[t]),
        decreases ps@.len() - i,
    {
        let piece: &Vec<u8> = &ps[i];
        let stripped = if piece.len() > 0 && piece[piece.len() - 1] == CARRIAGE {
            copy_range(piece.as_slice(), 0, piece.len() - 1)
        } else {
            copy_range(piece.as_slice(), 0, piece.len())
        };
        proof {
            assert(piece.deep_view() =~= ps2[i as int]);
            assert(stripped@ =~= strip_cr(ps2[i as int]));
        }
        let ghost old_out = out;
        out.push(stripped);
        proof {
            assert forall|t: int| 0 <= t < i implies out.deep_view()[t] == strip_cr(ps2[t]) by {
                assert(out@[t] == old_out@[t]);
                assert(out.deep_view()[t] == out@[t].deep_view());
                assert(old_out.deep_view()[t] == old_out@[t].deep_view());
                assert(old_out.deep_view()[t] == strip_cr(ps2[t]));
            }
            assert(out.deep_view()[i as int] =~= strip_cr(ps2[i as int]));
        }
        i = i + 1;
    }
    proof {
        assert(out.deep_view() =~~= spec_lines(s@));
    }
    out
}

/// The first whitespace-delimited token of a line, if any.
pub fn first_token(line: &[u8]) -> (r: Option<Vec<u8>>)
    ensures
        match r {
            Some(t) => spec_first_token(line@) == Some(t@),
            None => spec_first_token(line@) is None,
        },
{
    let n = line.len();
    let mut a: usize = 0;
    while a < n && is_space_byte(line[a])
        invariant
            0 <= a <= n,
            n == line@.len(),
            forall|i: int| 0 <= i < a ==> is_space(line@[i]),
        decreases n - a,
    {
        a = a + 1;
    }
    proof {
        lemma_skip_ws_at(line@, a as int);
    }
    if a == n {
        return None;
    }
    let mut b: usize = a;
    while b < n && !is_space_byte(line[b])
        invariant
            a <= b <= n,
            n == line@.len(),
            forall|i: int| a <= i < b ==> !is_space(line@[i]),
        decreases n - b,
    {
        b = b + 1;
    }
    let tok = copy_range(line, a, b);
    proof {
        let t = line@.subrange(a as int, n as int);
        lemma_take_tok_at(t, b - a);
        assert(t.subrange(0, b - a) =~= line@.subrange(a as int, b as int));
        assert(spec_first_token(line@) == Some(tok@));
    }
    Some(tok)
}

/// ASCII whitespace test on one byte.
pub fn is_space_byte(b: u8) -> (r: bool)
    ensures
        r == is_space(b),
{
    b == 32 || b == 9 || b == 10 || b == 11 || b == 12 || b == 13
}

/// Does `pat` occur contiguously inside `s`?
pub fn contains_subseq(s: &[u8], pat: &[u8]) -> (r: bool)
    ensures
        r == has_subseq(s@, pat@),
{
    let n = s.len();
    let m = pat.len();
    if m > n {
        proof {
            assert(!has_subseq(s@, pat@));
        }
        return false;
    }
    let mut k: usize = 0;
    while k <= n - m
        invariant
            0 <= k <= n - m + 1,
            m <= n,
            n == s@.len(),
            m == pat@.len(),
            forall|t: int|
                0 <= t < k ==> #[trigger] s@.subrange(t, t + pat@.len()) != pat@,
        decreases n + 1 - k,
    {
        let mut i: usize = 0;
        let mut all_eq = true;
        while i < m
            invariant
                0 <= i <= m,
                k + m <= n,
                n == s@.len(),
                m == pat@.len(),
                all_eq == (forall|t: int| 0 <= t < i ==> s@[k + t] == pat@[t]),
            decreases m - i,
        {
            if s[k + i] != pat[i] {
                proof {
                    assert(!(forall|t: int| 0 <= t < m ==> s@[k + t] == pat@[t])) by {
                        assert(s@[k + i] != pat@[i as int]);
                    }
                }
                all_eq = false;
                i = m;
            } else {
                proof {
                    if all_eq {
                        assert(forall|t: int| 0 <= t < i + 1 ==> s@[k + t] == pat@[t]);
                    } else {
                        let w = choose|t: int| 0 <= t < i && s@[k + t] != pat@[t];
                        assert(!(forall|t: int| 0 <= t < i + 1 ==> s@[k + t] == pat@[t])) by {
                            assert(s@[k + w] != pat@[w]);
                        }
                    }
                }
                i = i + 1;
            }
        }
        if all_eq {
            proof {
                assert(s@.subrange(k as int, k + pat@.len()) =~= pat@);
            }
            return true;
        }
        proof {
            assert(s@.subrange(k as int, k + pat@.len()) != pat@) by {
                let t = choose|t: int| 0 <= t < m && s@[k + t] != pat@[t];
                assert(s@.subrange(k as int, k + pat@.len())[t] != pat@[t]);
            }
        }
        k = k + 1;
    }
    proof {
        assert(!has_subseq(s@, pat@));
    }
    false
}

/// Does the byte `b` occur in `s`?
pub fn find_byte(s: &[u8], b: u8) -> (r: bool)
    ensures
        r == contains_byte(s@, b),
{
    let mut i: usize = 0;
    while i < s.len()
        invariant
            0 <= i <= s@.len(),
            forall|t: int| 0 <= t < i ==> s@[t] != b,
        decreases s@.len() - i,
    {
        if s[i] == b {
            return true;
        }
        i = i + 1;
    }
    false
}

} // verus!
