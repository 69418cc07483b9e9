//! Byte-sequence helpers: ASCII trimming, marker stripping, case folding,
//! line splitting, and small utilities the configuration codec and the form
//! state are specified with.

use vstd::prelude::*;

verus! {

/// ASCII whitespace, as the configuration format understands it.
pub open spec fn is_space(b: u8) -> bool {
    b == 32 || b == 9 || b == 10 || b == 11 || b == 12 || b == 13
}

/// The line-feed byte that terminates a line.
pub open spec fn nl() -> u8 {
    10
}

/// `s` without its leading ASCII whitespace.
pub open spec fn trim_front(s: Seq<u8>) -> Seq<u8>
    decreases s.len(),
{
    if s.len() > 0 && is_space(s[0]) {
        trim_front(s.drop_first())
    } else {
        s
    }
}

/// `s` without its trailing ASCII whitespace.
pub open spec fn trim_back(s: Seq<u8>) -> Seq<u8>
    decreases s.len(),
{
    if s.len() > 0 && is_space(s[s.len() - 1]) {
        trim_back(s.drop_last())
    } else {
        s
    }
}

/// `s` without leading and trailing ASCII whitespace.
pub open spec fn trimmed(s: Seq<u8>) -> Seq<u8> {
    trim_back(trim_front(s))
}

/// `s` without its leading run of the byte `c`.
pub open spec fn strip_front(s: Seq<u8>, c: u8) -> Seq<u8>
    decreases s.len(),
{
    if s.len() > 0 && s[0] == c {
        strip_front(s.drop_first(), c)
    } else {
        s
    }
}

/// ASCII lower-casing of one byte.
pub open spec fn lower(b: u8) -> u8 {
    if 65 <= b && b <= 90 {
        (b + 32) as u8
    } else {
        b
    }
}

/// Byte-wise equality up to ASCII case.
pub open spec fn eq_ignore_case(a: Seq<u8>, b: Seq<u8>) -> bool {
    a.len() == b.len() && forall|i: int| 0 <= i < a.len() ==> lower(a[i]) == lower(b[i])
}

/// No byte of `s` is a line feed: `s` fits on a single line.
pub open spec fn single_line(s: Seq<u8>) -> bool {
    forall|i: int| 0 <= i < s.len() ==> s[i] != nl()
}

/// `s` carries no surrounding ASCII whitespace and fits on one line; every
/// item the parser yields has this shape, and every such item survives a
/// render/parse round trip.
pub open spec fn clean(s: Seq<u8>) -> bool {
    &&& single_line(s)
    &&& s.len() > 0 ==> !is_space(s[0]) && !is_space(s[s.len() - 1])
}

/// The lines of `s`, split at each line feed; the final line is the tail
/// after the last line feed (possibly empty).
pub open spec fn lines_of(s: Seq<u8>) -> Seq<Seq<u8>>
    decreases s.len(),
{
    if s.len() == 0 {
        seq![Seq::<u8>::empty()]
    } else if s[0] == nl() {
        seq![Seq::<u8>::empty()] + lines_of(s.drop_first())
    } else {
        let rest = lines_of(s.drop_first());
        seq![seq![s[0]] + rest[0]] + rest.drop_first()
    }
}

proof fn lemma_trim_front_is_skip(s: Seq<u8>, k: int)
    requires
        0 <= k <= s.len(),
        forall|i: int| 0 <= i < k ==> is_space(s[i]),
        k < s.len() ==> !is_space(s[k]),
    ensures
        trim_front(s) == s.skip(k),
    decreases k,
{
    if k == 0 {
        assert(s.skip(0) == s);
    } else {
        assert(is_space(s[0]));
        lemma_trim_front_is_skip(s.drop_first(), k - 1);
        assert(s.drop_first().skip(k - 1) =~= s.skip(k));
    }
}

proof fn lemma_trim_back_is_take(s: Seq<u8>, k: int)
    requires
        0 <= k <= s.len(),
        forall|i: int| k <= i < s.len() ==> is_space(s[i]),
        k > 0 ==> !is_space(s[k - 1]),
    ensures
        trim_back(s) == s.take(k),
    decreases s.len(),
{
    if s.len() == k {
        assert(s.take(k) == s);
    } else {
        assert(is_space(s[s.len() - 1]));
        lemma_trim_back_is_take(s.drop_last(), k);
        assert(s.drop_last().take(k) =~= s.take(k));
    }
}

/// Whether one byte is ASCII whitespace.
pub fn is_space_byte(b: u8) -> (r: bool)
    ensures
        r == is_space(b),
{
    b == 32 || b == 9 || b == 10 || b == 11 || b == 12 || b == 13
}

/// A copy of `s` with surrounding ASCII whitespace removed.
pub fn trim(s: &Vec<u8>) -> (r: Vec<u8>)
    ensures
        r@ == trimmed(s@),
{
    let n = s.len();
    let mut lo: usize = 0;
    while lo < n && is_space_byte(s[lo])
        invariant
            lo <= n,
            n == s.len(),
            forall|i: int| 0 <= i < lo ==> is_space(s@[i]),
        decreases n - lo,
    {
        lo = lo + 1;
    }
    let mut hi: usize = n;
    while hi > lo && is_space_byte(s[hi - 1])
        invariant
            lo <= hi <= n,
            n == s.len(),
            forall|i: int| hi <= i < n ==> is_space(s@[i]),
        decreases hi,
    {
        hi = hi - 1;
    }
    let mut r: Vec<u8> = Vec::new();
    let mut i: usize = lo;
    while i < hi
        invariant
            lo <= i <= hi <= n,
            n == s.len(),
            r@ == s@.subrange(lo as int, i as int),
        decreases hi - i,
    {
        r.push(s[i]);
        assert(r@ =~= s@.subrange(lo as int, i + 1 as int));
        i = i + 1;
    }
    proof {
        lemma_trim_front_is_skip(s@, lo as int);
        let t = s@.skip(lo as int);
        lemma_trim_back_is_take(t, hi - lo as int);
        assert(t.take(hi - lo as int) =~= s@.subrange(lo as int, hi as int));
    }
    r
}

proof fn lemma_strip_front_is_skip(s: Seq<u8>, c: u8, k: int)
    requires
        0 <= k <= s.len(),
        forall|i: int| 0 <= i < k ==> s[i] == c,
        k < s.len() ==> s[k] != c,
    ensures
        strip_front(s, c) == s.skip(k),
    decreases k,
{
    if k == 0 {
        assert(s.skip(0) == s);
    } else {
        assert(s[0] == c);
        lemma_strip_front_is_skip(s.drop_first(), c, k - 1);
        assert(s.drop_first().skip(k - 1) =~= s.skip(k));
    }
}

/// A copy of `s` with its leading run of the byte `c` removed.
pub fn strip_leading(s: &Vec<u8>, c: u8) -> (r: Vec<u8>)
    ensures
        r@ == strip_front(s@, c),
{
    let n = s.len();
    let mut k: usize = 0;
    while k < n && s[k] == c
        invariant
            k <= n,
            n == s.len(),
            forall|i: int| 0 <= i < k ==> s@[i] == c,
        decreases n - k,
    {
        k = k + 1;
    }
    let mut r: Vec<u8> = Vec::new();
    let mut i: usize = k;
    while i < n
        invariant
            k <= i <= n,
            n == s.len(),
            r@ == s@.subrange(k as int, i as int),
        decreases n - i,
    {
        r.push(s[i]);
        assert(r@ =~= s@.subrange(k as int, i + 1 as int));
        i = i + 1;
    }
    proof {
        lemma_strip_front_is_skip(s@, c, k as int);
        assert(s@.skip(k as int) =~= s@.subrange(k as int, n as int));
    }
    r
}

/// ASCII lower-casing of one byte.
pub fn lower_byte(b: u8) -> (r: u8)
    ensures
        r == lower(b),
{
    if 65 <= b && b <= 90 {
        b + 32
    } else {
        b
    }
}

/// Whether `a` and `b` hold the same bytes up to ASCII case.
pub fn eq_ignore_case_bytes(a: &Vec<u8>, b: &Vec<u8>) -> (r: bool)
    ensures
        r == eq_ignore_case(a@, b@),
{
    if a.len() != b.len() {
        return false;
    }
    let n = a.len();
    let mut i: usize = 0;
    while i < n
        invariant
            i <= n,
            n == a.len() == b.len(),
            forall|j: int| 0 <= j < i ==> lower(a@[j]) == lower(b@[j]),
        decreases n - i,
    {
        if lower_byte(a[i]) != lower_byte(b[i]) {
            return false;
        }
        i = i + 1;
    }
    true
}

/// Whether `a` and `b` hold the same bytes.
pub fn bytes_eq(a: &Vec<u8>, b: &Vec<u8>) -> (r: bool)
    ensures
        r == (a@ == b@),
{
    if a.len() != b.len() {
        return false;
    }
    let n = a.len();
    let mut i: usize = 0;
    while i < n
        invariant
            i <= n,
            n == a.len() == b.len(),
            forall|j: int| 0 <= j < i ==> a@[j] == b@[j],
        decreases n - i,
    {
        if a[i] != b[i] {
            return false;
        }
        i = i + 1;
    }
    proof {
        assert(a@ =~= b@);
    }
    true
}

/// Whether some element of `list` holds the same bytes as `x`.
pub fn contains_entry(list: &Vec<Vec<u8>>, x: &Vec<u8>) -> (r: bool)
    ensures
        r == list.deep_view().contains(x@),
{
    let n = list.len();
    let mut i: usize = 0;
    while i < n
        invariant
            i <= n,
            n == list.len(),
            forall|j: int| 0 <= j < i ==> list.deep_view()[j] != x@,
        decreases n - i,
    {
        assert(list.deep_view()[i as int] =~= list@[i as int]@);
        if bytes_eq(&list[i], x) {
            assert(list.deep_view()[i as int] == x@);
            return true;
        }
        i = i + 1;
    }
    assert(!list.deep_view().contains(x@));
    false
}

/// Front trimming keeps a single line single.
pub proof fn lemma_trim_front_single(s: Seq<u8>)
    requires
        single_line(s),
    ensures
        single_line(trim_front(s)),
    decreases s.len(),
{
    if s.len() > 0 && is_space(s[0]) {
        assert(single_line(s.drop_first()));
        lemma_trim_front_single(s.drop_first());
    }
}

/// Back trimming keeps a single line single.
pub proof fn lemma_trim_back_single(s: Seq<u8>)
    requires
        single_line(s),
    ensures
        single_line(trim_back(s)),
    decreases s.len(),
{
    if s.len() > 0 && is_space(s[s.len() - 1]) {
        assert(single_line(s.drop_last()));
        lemma_trim_back_single(s.drop_last());
    }
}

/// Stripping a leading marker run keeps a single line single.
pub proof fn lemma_strip_front_single(s: Seq<u8>, c: u8)
    requires
        single_line(s),
    ensures
        single_line(strip_front(s, c)),
    decreases s.len(),
{
    if s.len() > 0 && s[0] == c {
        assert(single_line(s.drop_first()));
        lemma_strip_front_single(s.drop_first(), c);
    }
}

/// A nonempty front-trimmed sequence starts with a non-space byte.
pub proof fn lemma_trim_front_head(s: Seq<u8>)
    ensures
        trim_front(s).len() > 0 ==> !is_space(trim_front(s)[0]),
    decreases s.len(),
{
    if s.len() > 0 && is_space(s[0]) {
        lemma_trim_front_head(s.drop_first());
    }
}

/// A nonempty back-trimmed sequence ends with a non-space byte.
pub proof fn lemma_trim_back_last(s: Seq<u8>)
    ensures
        trim_back(s).len() > 0 ==> !is_space(trim_back(s)[trim_back(s).len() - 1]),
    decreases s.len(),
{
    if s.len() > 0 && is_space(s[s.len() - 1]) {
        lemma_trim_back_last(s.drop_last());
    }
}

/// Back trimming a sequence whose first byte is not a space keeps that byte
/// in front.
pub proof fn lemma_trim_back_keeps_head(s: Seq<u8>)
    requires
        s.len() > 0,
        !is_space(s[0]),
    ensures
        trim_back(s).len() > 0,
        trim_back(s)[0] == s[0],
    decreases s.len(),
{
    if is_space(s[s.len() - 1]) {
        assert(s.drop_last()[0] == s[0]);
        lemma_trim_back_keeps_head(s.drop_last());
    }
}

/// Whatever trimming yields from one line is clean: it fits on a line and
/// carries no surrounding whitespace.
pub proof fn lemma_trimmed_clean(s: Seq<u8>)
    requires
        single_line(s),
    ensures
        clean(trimmed(s)),
{
    lemma_trim_front_single(s);
    lemma_trim_back_single(trim_front(s));
    lemma_trim_front_head(s);
    lemma_trim_back_last(trim_front(s));
    if trimmed(s).len() > 0 {
        lemma_trim_back_keeps_head(trim_front(s));
    }
}

/// Two single lines concatenate to a single line.
pub proof fn lemma_single_concat(a: Seq<u8>, b: Seq<u8>)
    requires
        single_line(a),
        single_line(b),
    ensures
        single_line(a + b),
{
    assert forall|i: int| 0 <= i < (a + b).len() implies (a + b)[i] != nl() by {
        if i < a.len() {
            assert((a + b)[i] == a[i]);
        } else {
            assert((a + b)[i] == b[i - a.len()]);
        }
    }
}

/// A copy of `s`.
pub fn copy_bytes(s: &Vec<u8>) -> (r: Vec<u8>)
    ensures
        r@ == s@,
{
    let mut r: Vec<u8> = Vec::new();
    append_bytes(&mut r, s);
    proof {
        assert(r@ =~= s@);
    }
    r
}

/// Every byte sequence splits into at least one line.
proof fn lemma_lines_of_len(s: Seq<u8>)
    ensures
        lines_of(s).len() >= 1,
    decreases s.len(),
{
    if s.len() > 0 {
        lemma_lines_of_len(s.drop_first());
    }
}

/// A sequence without a line feed is one line.
pub proof fn lemma_lines_of_single(s: Seq<u8>)
    requires
        single_line(s),
    ensures
        lines_of(s) == seq![s],
    decreases s.len(),
{
    if s.len() == 0 {
        assert(s =~= Seq::<u8>::empty());
    } else {
        assert(s[0] != nl());
        assert(single_line(s.drop_first()));
        lemma_lines_of_single(s.drop_first());
        assert(seq![s[0]] + s.drop_first() =~= s);
        assert(lines_of(s) =~= seq![s]);
    }
}

/// Splitting at the first line feed: a line-feed-free prefix is the first
/// line, and the rest splits on its own.
pub proof fn lemma_lines_of_prefix(a: Seq<u8>, b: Seq<u8>)
    requires
        single_line(a),
    ensures
        lines_of(a + seq![nl()] + b) == seq![a] + lines_of(b),
    decreases a.len(),
{
    let s = a + seq![nl()] + b;
    if a.len() == 0 {
        assert(s[0] == nl());
        assert(s.drop_first() =~= b);
        assert(a =~= Seq::<u8>::empty());
        assert(lines_of(s) =~= seq![a] + lines_of(b));
    } else {
        assert(s[0] == a[0]);
        assert(a[0] != nl());
        assert(s.drop_first() =~= a.drop_first() + seq![nl()] + b);
        assert(single_line(a.drop_first()));
        lemma_lines_of_prefix(a.drop_first(), b);
        let rest = lines_of(s.drop_first());
        assert(rest == seq![a.drop_first()] + lines_of(b));
        assert(rest[0] == a.drop_first());
        assert(seq![s[0]] + rest[0] =~= a);
        assert(rest.drop_first() =~= lines_of(b));
        assert(lines_of(s) =~= seq![a] + lines_of(b));
    }
}

/// No line produced by `lines_of` holds a line feed.
pub proof fn lemma_lines_of_no_nl(s: Seq<u8>)
    ensures
        forall|k: int| 0 <= k < lines_of(s).len() ==> single_line(#[trigger] lines_of(s)[k]),
    decreases s.len(),
{
    if s.len() == 0 {
    } else if s[0] == nl() {
        lemma_lines_of_no_nl(s.drop_first());
    } else {
        lemma_lines_of_no_nl(s.drop_first());
        let rest = lines_of(s.drop_first());
        lemma_lines_of_len(s.drop_first());
        assert forall|k: int| 0 <= k < lines_of(s).len() implies single_line(
            #[trigger] lines_of(s)[k],
        ) by {
            if k == 0 {
                assert(single_line(rest[0]));
                assert(lines_of(s)[0] == seq![s[0]] + rest[0]);
            } else {
                assert(lines_of(s)[k] == rest[k]);
            }
        }
    }
}

/// The first line of `ls` extended on the left with `x`.
spec fn prepend_first(x: Seq<u8>, ls: Seq<Seq<u8>>) -> Seq<Seq<u8>> {
    seq![x + ls[0]] + ls.drop_first()
}

/// The lines of `text`, split at each line feed; the final line is whatever
/// follows the last line feed, possibly empty.
pub fn split_lines(text: &Vec<u8>) -> (r: Vec<Vec<u8>>)
    ensures
        r.deep_view() == lines_of(text@),
{
    let n = text.len();
    let mut out: Vec<Vec<u8>> = Vec::new();
    let mut cur: Vec<u8> = Vec::new();
    let mut i: usize = 0;
    proof {
        lemma_lines_of_len(text@);
        assert(text@.skip(0) =~= text@);
        assert(out.deep_view() + prepend_first(cur@, lines_of(text@.skip(0))) =~= lines_of(
            text@,
        ));
    }
    while i < n
        invariant
            i <= n,
            n == text.len(),
            lines_of(text@) == out.deep_view() + prepend_first(cur@, lines_of(text@.skip(i as int))),
        decreases n - i,
    {
        let ghost pre_out = out.deep_view();
        let ghost tail = text@.skip(i as int);
        let ghost rest = lines_of(text@.skip(i + 1 as int));
        proof {
            assert(tail.len() > 0);
            assert(tail[0] == text@[i as int]);
            assert(tail.drop_first() =~= text@.skip(i + 1 as int));
            lemma_lines_of_len(text@.skip(i + 1 as int));
        }
        let b = text[i];
        if b == 10 {
            let ghost oc = cur@;
            out.push(cur);
            cur = Vec::new();
            proof {
                assert(lines_of(tail) == seq![Seq::<u8>::empty()] + rest);
                assert(lines_of(tail)[0] =~= Seq::<u8>::empty());
                assert(lines_of(tail).drop_first() =~= rest);
                assert(oc + lines_of(tail)[0] =~= oc);
                assert(prepend_first(oc, lines_of(tail)) =~= seq![oc] + rest);
                assert(out.deep_view() =~~= pre_out.push(oc));
                assert(cur@ + rest[0] =~= rest[0]);
                assert(prepend_first(cur@, rest) =~= rest);
                assert(out.deep_view() + prepend_first(cur@, rest) =~= pre_out + (seq![oc]
                    + rest));
                assert(pre_out + (seq![oc] + rest) =~= pre_out + prepend_first(
                    oc,
                    lines_of(tail),
                ));
            }
        } else {
            let ghost oc = cur@;
            cur.push(b);
            proof {
                assert(lines_of(tail) == seq![seq![tail[0]] + rest[0]] + rest.drop_first());
                assert(lines_of(tail)[0] =~= seq![tail[0]] + rest[0]);
                assert(lines_of(tail).drop_first() =~= rest.drop_first());
                assert(oc + lines_of(tail)[0] =~= cur@ + rest[0]);
                assert(prepend_first(oc, lines_of(tail)) =~= prepend_first(cur@, rest));
            }
        }
        i = i + 1;
    }
    proof {
        assert(text@.skip(n as int) =~= Seq::<u8>::empty());
        assert(lines_of(text@.skip(n as int)) == seq![Seq::<u8>::empty()]);
        assert(cur@ + Seq::<u8>::empty() =~= cur@);
        assert(prepend_first(cur@, lines_of(text@.skip(n as int))) =~= seq![cur@]);
    }
    let ghost pre_out = out.deep_view();
    out.push(cur);
    proof {
        assert(lines_of(text@) =~= pre_out + seq![cur@]);
        assert(out.deep_view() =~~= pre_out.push(cur@));
        assert(out.deep_view() =~= lines_of(text@));
    }
    out
}

/// How many line feeds `s` holds: with every record terminated by one, the
/// number of lines in the log.
pub open spec fn newline_count(s: Seq<u8>) -> nat
    decreases s.len(),
{
    if s.len() == 0 {
        0
    } else {
        newline_count(s.drop_last()) + if s.last() == nl() {
            1nat
        } else {
            0nat
        }
    }
}

/// Line feeds are counted piecewise across concatenation.
pub proof fn lemma_newline_count_append(a: Seq<u8>, b: Seq<u8>)
    ensures
        newline_count(a + b) == newline_count(a) + newline_count(b),
    decreases b.len(),
{
    if b.len() == 0 {
        assert(a + b =~= a);
    } else {
        assert((a + b).drop_last() =~= a + b.drop_last());
        assert((a + b).last() == b.last());
        lemma_newline_count_append(a, b.drop_last());
    }
}

/// A single line holds no line feed to count.
pub proof fn lemma_single_line_count(s: Seq<u8>)
    requires
        single_line(s),
    ensures
        newline_count(s) == 0,
    decreases s.len(),
{
    if s.len() > 0 {
        assert(single_line(s.drop_last()));
        lemma_single_line_count(s.drop_last());
    }
}

/// Appends every byte of `src` to `dst`.
pub fn append_bytes(dst: &mut Vec<u8>, src: &Vec<u8>)
    ensures
        final(dst)@ == old(dst)@ + src@,
{
    let n = src.len();
    let mut i: usize = 0;
    while i < n
        invariant
            i <= n,
            n == src.len(),
            dst@ == old(dst)@ + src@.subrange(0, i as int),
        decreases n - i,
    {
        dst.push(src[i]);
        assert(dst@ =~= old(dst)@ + src@.subrange(0, i + 1 as int));
        i = i + 1;
    }
    assert(src@.subrange(0, n as int) =~= src@);
}

} // verus!
