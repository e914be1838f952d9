use vstd::prelude::*;

verus! {

/// ASCII whitespace as `char::is_whitespace` sees it: space, tab, LF, VT, FF, CR.
pub open spec fn is_ws(b: u8) -> bool {
    b == 32 || (9 <= b && b <= 13)
}

/// Number of bytes of `s` from `i` (before `end`) that precede the first `x`.
pub open spec fn span(s: Seq<u8>, x: u8, i: int, end: int) -> nat
    decreases end - i,
{
    if i >= end || s[i] == x {
        0
    } else {
        1 + span(s, x, i + 1, end)
    }
}

/// Characterises `span` by what lies before and at the stop position.
pub proof fn lemma_span(s: Seq<u8>, x: u8, i: int, end: int)
    requires
        0 <= i <= end <= s.len(),
    ensures
        i + span(s, x, i, end) <= end,
        forall|j: int| i <= j < i + span(s, x, i, end) ==> s[j] != x,
        i + span(s, x, i, end) < end ==> s[i + span(s, x, i, end)] == x,
    decreases end - i,
{
    if i < end && s[i] != x {
        lemma_span(s, x, i + 1, end);
    }
}

/// The stop position is fixed by what lies before it.
pub proof fn lemma_span_is(s: Seq<u8>, x: u8, i: int, end: int, k: nat)
    requires
        0 <= i,
        i + k <= end <= s.len(),
        forall|j: int| i <= j < i + k ==> s[j] != x,
        i + k == end || s[i + k] == x,
    ensures
        span(s, x, i, end) == k,
    decreases k,
{
    if k > 0 {
        lemma_span_is(s, x, i + 1, end, (k - 1) as nat);
    }
}

/// Position of the first `x` in `s[from..end]`, or `end` when there is none.
pub fn find_byte(s: &[u8], x: u8, from: usize, end: usize) -> (r: usize)
    requires
        from <= end <= s@.len(),
    ensures
        r == from + span(s@, x, from as int, end as int),
        from <= r <= end,
{
    proof {
        lemma_span(s@, x, from as int, end as int);
    }
    let mut i: usize = from;
    while i < end
        invariant
            from <= i <= end <= s@.len(),
            from + span(s@, x, from as int, end as int) == i + span(s@, x, i as int, end as int),
        decreases end - i,
    {
        if s[i] == x {
            return i;
        }
        i = i + 1;
    }
    i
}

/// Appends the pending token, if any, to the tokens found so far.
pub open spec fn flush(cur: Seq<u8>, acc: Seq<Seq<u8>>) -> Seq<Seq<u8>> {
    if cur.len() > 0 {
        acc.push(cur)
    } else {
        acc
    }
}

/// Whitespace splitting from position `i`, with the token being read in `cur`.
pub open spec fn split_ws_from(s: Seq<u8>, i: int, cur: Seq<u8>, acc: Seq<Seq<u8>>) -> Seq<Seq<u8>>
    decreases s.len() - i,
{
    if i >= s.len() {
        flush(cur, acc)
    } else if is_ws(s[i]) {
        split_ws_from(s, i + 1, seq![], flush(cur, acc))
    } else {
        split_ws_from(s, i + 1, cur.push(s[i]), acc)
    }
}

/// The maximal runs of non-whitespace bytes of `s`, in order.
pub open spec fn split_ws(s: Seq<u8>) -> Seq<Seq<u8>> {
    split_ws_from(s, 0, seq![], seq![])
}

/// The byte strings that a list of buffers holds.
pub open spec fn views(v: Seq<Vec<u8>>) -> Seq<Seq<u8>> {
    v.map_values(|t: Vec<u8>| t@)
}

/// The whitespace-separated tokens of `s[lo..hi]`.
pub fn split_whitespace(s: &[u8], lo: usize, hi: usize) -> (r: Vec<Vec<u8>>)
    requires
        lo <= hi <= s@.len(),
    ensures
        views(r@) == split_ws(s@.subrange(lo as int, hi as int)),
{
    let ghost t = s@.subrange(lo as int, hi as int);
    let mut acc: Vec<Vec<u8>> = Vec::new();
    let mut cur: Vec<u8> = Vec::new();
    let mut i: usize = lo;
    assert(views(acc@) =~= Seq::<Seq<u8>>::empty());
    assert(cur@ =~= Seq::<u8>::empty());
    while i < hi
        invariant
            lo <= i <= hi <= s@.len(),
            t == s@.subrange(lo as int, hi as int),
            split_ws(t) == split_ws_from(t, i - lo, cur@, views(acc@)),
        decreases hi - i,
    {
        let b = s[i];
        if is_ws_byte(b) {
            if cur.len() > 0 {
                let ghost before = acc@;
                acc.push(cur);
                assert(views(acc@) =~= views(before).push(cur@));
            }
            cur = Vec::new();
        } else {
            cur.push(b);
        }
        i = i + 1;
    }
    if cur.len() > 0 {
        let ghost before = acc@;
        let ghost last = cur@;
        acc.push(cur);
        assert(views(acc@) =~= views(before).push(last));
    }
    acc
}

/// Whether `b` is ASCII whitespace.
pub fn is_ws_byte(b: u8) -> (r: bool)
    ensures
        r == is_ws(b),
{
    b == 32 || (9 <= b && b <= 13)
}

/// Drops trailing whitespace.
pub open spec fn trim_end(s: Seq<u8>) -> Seq<u8>
    decreases s.len(),
{
    if s.len() > 0 && is_ws(s.last()) {
        trim_end(s.drop_last())
    } else {
        s
    }
}

/// A copy of `s[lo..hi]`.
pub fn copy_range(s: &[u8], lo: usize, hi: usize) -> (r: Vec<u8>)
    requires
        lo <= hi <= s@.len(),
    ensures
        r@ == s@.subrange(lo as int, hi as int),
{
    let mut r: Vec<u8> = Vec::new();
    let mut i: usize = lo;
    while i < hi
        invariant
            lo <= i <= hi <= s@.len(),
            r@ == s@.subrange(lo as int, i as int),
        decreases hi - i,
    {
        r.push(s[i]);
        i = i + 1;
        assert(r@ =~= s@.subrange(lo as int, i as int));
    }
    r
}

/// A copy of `s[lo..hi]` without its trailing whitespace.
pub fn copy_trimmed(s: &[u8], lo: usize, hi: usize) -> (r: Vec<u8>)
    requires
        lo <= hi <= s@.len(),
    ensures
        r@ == trim_end(s@.subrange(lo as int, hi as int)),
{
    let mut k: usize = hi;
    while k > lo && is_ws_byte(s[k - 1])
        invariant
            lo <= k <= hi <= s@.len(),
            trim_end(s@.subrange(lo as int, hi as int)) == trim_end(s@.subrange(lo as int, k as int)),
        decreases k,
    {
        assert(s@.subrange(lo as int, k as int).drop_last() =~= s@.subrange(lo as int, k - 1));
        k = k - 1;
    }
    copy_range(s, lo, k)
}

/// Whether `s[lo..hi]` begins with `p`.
pub open spec fn starts_with_at(s: Seq<u8>, lo: int, hi: int, p: Seq<u8>) -> bool {
    lo + p.len() <= hi && s.subrange(lo, lo + p.len()) == p
}

/// Whether `s[lo..hi]` begins with `p`.
pub fn has_prefix(s: &[u8], lo: usize, hi: usize, p: &[u8]) -> (r: bool)
    requires
        lo <= hi <= s@.len(),
    ensures
        r == starts_with_at(s@, lo as int, hi as int, p@),
{
    if p.len() > hi - lo {
        return false;
    }
    let mut k: usize = 0;
    while k < p.len()
        invariant
            lo + p@.len() <= hi <= s@.len(),
            k <= p@.len(),
            s@.subrange(lo as int, lo + k) == p@.subrange(0, k as int),
        decreases p@.len() - k,
    {
        if s[lo + k] != p[k] {
            assert(s@.subrange(lo as int, lo + p@.len())[k as int] != p@[k as int]);
            return false;
        }
        k = k + 1;
        assert(s@.subrange(lo as int, lo + k) =~= p@.subrange(0, k as int));
    }
    assert(p@.subrange(0, k as int) =~= p@);
    true
}

/// Whether two byte strings are equal.
pub fn bytes_eq(a: &[u8], b: &[u8]) -> (r: bool)
    ensures
        r == (a@ == b@),
{
    if a.len() != b.len() {
        return false;
    }
    let r = has_prefix(a, 0, a.len(), b);
    assert(a@.subrange(0, a@.len() as int) =~= a@);
    r
}

pub open spec fn is_digit(b: u8) -> bool {
    48 <= b && b <= 57
}

pub open spec fn all_digits(s: Seq<u8>) -> bool {
    forall|i: int| 0 <= i < s.len() ==> is_digit(s[i])
}

/// The number that a string of decimal digits writes.
pub open spec fn digits_value(s: Seq<u8>) -> nat
    decreases s.len(),
{
    if s.len() == 0 {
        0
    } else {
        digits_value(s.drop_last()) * 10 + (s.last() - 48) as nat
    }
}

/// A non-empty run of decimal digits whose value is at most `max`.
pub open spec fn decimal_value(s: Seq<u8>, max: u64) -> Option<u64> {
    if s.len() > 0 && all_digits(s) && digits_value(s) <= max {
        Some(digits_value(s) as u64)
    } else {
        None
    }
}

proof fn lemma_digits_grow(s: Seq<u8>, i: int, j: int)
    requires
        0 <= i <= j <= s.len(),
        all_digits(s),
    ensures
        digits_value(s.take(i)) <= digits_value(s.take(j)),
    decreases j - i,
{
    if i < j {
        lemma_digits_grow(s, i, j - 1);
        assert(s.take(j).drop_last() =~= s.take(j - 1));
        assert(digits_value(s.take(j - 1)) <= digits_value(s.take(j - 1)) * 10) by (nonlinear_arith);
    }
}

/// Reads `s` as an unsigned decimal number no greater than `max`.
pub fn parse_decimal(s: &[u8], max: u64) -> (r: Option<u64>)
    ensures
        r == decimal_value(s@, max),
{
    if s.len() == 0 {
        return None;
    }
    let mut acc: u64 = 0;
    let mut i: usize = 0;
    while i < s.len()
        invariant
            i <= s@.len(),
            s@.len() > 0,
            acc <= max,
            acc == digits_value(s@.take(i as int)),
            forall|j: int| 0 <= j < i ==> is_digit(s@[j]),
        decreases s@.len() - i,
    {
        let b = s[i];
        if b < 48 || b > 57 {
            return None;
        }
        let d = (b - 48) as u64;
        assert(s@.take(i + 1).drop_last() =~= s@.take(i as int));
        if d > max || acc > (max - d) / 10 {
            proof {
                assert(acc * 10 + d > max) by (nonlinear_arith)
                    requires
                        d > max || acc > (max - d) / 10,
                        d <= 9,
                ;
                if all_digits(s@) {
                    lemma_digits_grow(s@, i + 1, s@.len() as int);
                    assert(s@.take(s@.len() as int) =~= s@);
                }
            }
            return None;
        }
        assert(acc * 10 + d <= max) by (nonlinear_arith)
            requires
                acc <= (max - d) / 10,
                d <= max,
        ;
        acc = acc * 10 + d;
        i = i + 1;
    }
    assert(s@.take(s@.len() as int) =~= s@);
    Some(acc)
}

/// The decimal digits of `n`, most significant first, without leading zeros.
pub open spec fn decimal_spec(n: nat) -> Seq<u8>
    decreases n,
{
    if n < 10 {
        seq![(48 + n) as u8]
    } else {
        decimal_spec(n / 10).push((48 + n % 10) as u8)
    }
}

/// The decimal digits of `n` as ASCII bytes.
pub fn decimal_digits(n: u64) -> (r: Vec<u8>)
    ensures
        r@ == decimal_spec(n as nat),
    decreases n,
{
    if n < 10 {
        let mut v: Vec<u8> = Vec::new();
        v.push((48 + n) as u8);
        assert(v@ =~= seq![(48 + n) as u8]);
        v
    } else {
        let mut v = decimal_digits(n / 10);
        v.push((48 + n % 10) as u8);
        v
    }
}

/// The lower-case hexadecimal digit for a value below 16.
pub open spec fn hex_digit(n: u8) -> u8 {
    if n < 10 {
        (48 + n) as u8
    } else {
        (87 + n) as u8
    }
}

/// Two lower-case hexadecimal digits per byte, high nibble first.
pub open spec fn hex_spec(b: Seq<u8>) -> Seq<u8>
    decreases b.len(),
{
    if b.len() == 0 {
        seq![]
    } else {
        hex_spec(b.drop_last()) + seq![hex_digit(b.last() / 16), hex_digit(b.last() % 16)]
    }
}

} // verus!
