//! Character-level text helpers: splitting on a separator, joining, and
//! reading unsigned decimal numbers.
use vstd::prelude::*;

verus! {

/// Appends one character to a string, as `String::push` does.
#[verifier::external_body]
pub(crate) fn push_char(s: &mut String, c: char)
    ensures
        final(s)@ == old(s)@.push(c),
{
    s.push(c);
}

/// The characters of `s`, in order.
pub fn chars_of(s: &str) -> (r: Vec<char>)
    ensures
        r@ == s@,
{
    let mut r: Vec<char> = Vec::new();
    for c in it: s.chars()
        invariant
            r@ == it.history(),
    {
        r.push(c);
    }
    r
}

} // verus!

verus! {

/// The pieces of `s` between the occurrences of `sep`, in order, as
/// `str::split` with a one-character pattern yields them: one piece more than
/// there are separators, empty pieces included.
pub open spec fn split_spec(s: Seq<char>, sep: char) -> Seq<Seq<char>>
    decreases s.len(),
{
    if s.len() == 0 {
        seq![Seq::<char>::empty()]
    } else {
        let rest = split_spec(s.drop_last(), sep);
        if s.last() == sep {
            rest.push(Seq::<char>::empty())
        } else {
            rest.update(rest.len() - 1, rest.last().push(s.last()))
        }
    }
}

/// The pieces joined together, with `sep` between each two neighbours.
pub open spec fn join_spec(parts: Seq<Seq<char>>, sep: char) -> Seq<char>
    decreases parts.len(),
{
    if parts.len() == 0 {
        Seq::<char>::empty()
    } else if parts.len() == 1 {
        parts[0]
    } else {
        join_spec(parts.drop_last(), sep).push(sep) + parts.last()
    }
}

/// The views of a sequence of strings.
pub open spec fn string_views(v: Seq<String>) -> Seq<Seq<char>> {
    v.map_values(|x: String| x@)
}

proof fn lemma_split_nonempty(s: Seq<char>, sep: char)
    ensures
        split_spec(s, sep).len() >= 1,
    decreases s.len(),
{
    if s.len() > 0 {
        lemma_split_nonempty(s.drop_last(), sep);
    }
}

/// Splitting then joining with the same separator gives the text back, and
/// no piece holds the separator.
pub proof fn lemma_join_split(s: Seq<char>, sep: char)
    ensures
        join_spec(split_spec(s, sep), sep) == s,
        forall|i: int|
            0 <= i < split_spec(s, sep).len() ==> !(#[trigger] split_spec(s, sep)[i]).contains(
                sep,
            ),
    decreases s.len(),
{
    if s.len() == 0 {
        assert(!Seq::<char>::empty().contains(sep));
    } else {
        let pre = s.drop_last();
        let rest = split_spec(pre, sep);
        lemma_join_split(pre, sep);
        lemma_split_nonempty(pre, sep);
        let parts = split_spec(s, sep);
        if s.last() == sep {
            assert(parts.drop_last() =~= rest);
            assert(join_spec(parts, sep) =~= s);
            assert forall|i: int| 0 <= i < parts.len() implies !(#[trigger] parts[i]).contains(
                sep,
            ) by {
                if i < parts.len() - 1 {
                    assert(parts[i] == rest[i]);
                } else {
                    assert(parts[i] =~= Seq::<char>::empty());
                }
            }
        } else {
            let n = rest.len();
            if n == 1 {
                assert(join_spec(rest, sep) == rest[0]);
                assert(parts =~= seq![rest[0].push(s.last())]);
                assert(join_spec(parts, sep) =~= s);
            } else {
                assert(parts.drop_last() =~= rest.drop_last());
                assert(join_spec(rest, sep) == join_spec(rest.drop_last(), sep).push(sep)
                    + rest.last());
                assert(parts.last() == rest.last().push(s.last()));
                assert(join_spec(parts, sep) == join_spec(parts.drop_last(), sep).push(sep)
                    + parts.last());
                assert(pre =~= join_spec(rest.drop_last(), sep).push(sep) + rest.last());
                assert(s =~= pre.push(s.last()));
                assert(join_spec(parts, sep) =~= s);
            }
            assert forall|i: int| 0 <= i < parts.len() implies !(#[trigger] parts[i]).contains(
                sep,
            ) by {
                if i < n - 1 {
                    assert(parts[i] == rest[i]);
                } else {
                    let last = rest[n - 1];
                    assert(!last.contains(sep));
                    assert(parts[i] == last.push(s.last()));
                    if parts[i].contains(sep) {
                        let j = choose|j: int| 0 <= j < parts[i].len() && parts[i][j] == sep;
                        assert(j < last.len() ==> last[j] == sep);
                    }
                }
            }
        }
    }
}

proof fn lemma_split_plain(s: Seq<char>, sep: char)
    requires
        !s.contains(sep),
    ensures
        split_spec(s, sep) == seq![s],
    decreases s.len(),
{
    if s.len() == 0 {
        assert(s =~= Seq::<char>::empty());
    } else {
        let pre = s.drop_last();
        assert(!pre.contains(sep)) by {
            if pre.contains(sep) {
                let j = choose|j: int| 0 <= j < pre.len() && pre[j] == sep;
                assert(s[j] == sep);
            }
        }
        lemma_split_plain(pre, sep);
        assert(s.last() != sep) by {
            assert(s[s.len() - 1] == s.last());
        }
        assert(pre.push(s.last()) =~= s);
        assert(split_spec(s, sep) =~= seq![s]);
    }
}

proof fn lemma_split_after_sep(a: Seq<char>, b: Seq<char>, sep: char)
    requires
        !b.contains(sep),
    ensures
        split_spec(a.push(sep) + b, sep) == split_spec(a, sep).push(b),
    decreases b.len(),
{
    if b.len() == 0 {
        assert(b =~= Seq::<char>::empty());
        assert(a.push(sep) + b =~= a.push(sep));
        assert(a.push(sep).drop_last() =~= a);
    } else {
        let bp = b.drop_last();
        assert(!bp.contains(sep)) by {
            if bp.contains(sep) {
                let j = choose|j: int| 0 <= j < bp.len() && bp[j] == sep;
                assert(b[j] == sep);
            }
        }
        lemma_split_after_sep(a, bp, sep);
        let whole = a.push(sep) + b;
        assert(whole.drop_last() =~= a.push(sep) + bp);
        assert(whole.last() == b.last());
        assert(b.last() != sep) by {
            assert(b[b.len() - 1] == b.last());
        }
        assert(bp.push(b.last()) =~= b);
        assert(split_spec(whole, sep) =~= split_spec(a, sep).push(b));
    }
}

/// Joining pieces that hold no separator, then splitting on it, gives the
/// pieces back (there is always at least one piece).
pub proof fn lemma_split_join(parts: Seq<Seq<char>>, sep: char)
    requires
        parts.len() >= 1,
        forall|i: int| 0 <= i < parts.len() ==> !(#[trigger] parts[i]).contains(sep),
    ensures
        split_spec(join_spec(parts, sep), sep) == parts,
    decreases parts.len(),
{
    if parts.len() == 1 {
        lemma_split_plain(parts[0], sep);
        assert(parts =~= seq![parts[0]]);
    } else {
        let pre = parts.drop_last();
        assert forall|i: int| 0 <= i < pre.len() implies !(#[trigger] pre[i]).contains(sep) by {
            assert(pre[i] == parts[i]);
        }
        lemma_split_join(pre, sep);
        assert(!parts.last().contains(sep)) by {
            assert(parts[parts.len() - 1] == parts.last());
        }
        lemma_split_after_sep(join_spec(pre, sep), parts.last(), sep);
        assert(pre.push(parts.last()) =~= parts);
    }
}

/// Splits `s` on every occurrence of `sep`, as `str::split` does with a
/// one-character pattern.
pub fn split_on(s: &str, sep: char) -> (r: Vec<String>)
    ensures
        string_views(r@) == split_spec(s@, sep),
{
    let chars = chars_of(s);
    let mut parts: Vec<String> = Vec::new();
    let mut cur = String::new();
    let mut i: usize = 0;
    while i < chars.len()
        invariant
            chars@ == s@,
            i <= chars@.len(),
            string_views(parts@).push(cur@) == split_spec(chars@.take(i as int), sep),
        decreases chars@.len() - i,
    {
        let c = chars[i];
        let ghost pre = chars@.take(i as int);
        proof {
            lemma_split_nonempty(pre, sep);
            assert(chars@.take(i + 1).drop_last() =~= pre);
        }
        if c == sep {
            let done = cur;
            parts.push(done);
            cur = String::new();
            assert(string_views(parts@).push(cur@) =~= split_spec(pre, sep).push(
                Seq::<char>::empty(),
            ));
        } else {
            let ghost before = string_views(parts@);
            push_char(&mut cur, c);
            assert(string_views(parts@).push(cur@) =~= split_spec(pre, sep).update(
                split_spec(pre, sep).len() - 1,
                split_spec(pre, sep).last().push(c),
            ));
        }
        i = i + 1;
    }
    assert(chars@.take(i as int) =~= s@);
    let ghost before = string_views(parts@);
    parts.push(cur);
    assert(string_views(parts@) =~= before.push(cur@));
    parts
}

} // verus!

verus! {

/// An ASCII decimal digit.
pub open spec fn is_digit(c: char) -> bool {
    '0' <= c && c <= '9'
}

/// The number that a run of decimal digits denotes.
pub open spec fn decimal_value(s: Seq<char>) -> nat
    decreases s.len(),
{
    if s.len() == 0 {
        0
    } else {
        decimal_value(s.drop_last()) * 10 + (s.last() as nat - '0' as nat) as nat
    }
}

/// A numeral without its leading `+`, if it has one.
pub open spec fn numeral_body(s: Seq<char>) -> Seq<char> {
    if s.len() > 0 && s[0] == '+' {
        s.skip(1)
    } else {
        s
    }
}

/// The digits of an unsigned decimal numeral as `from_str_radix(_, 10)`
/// reads it for an unsigned type: an optional `+`, then one or more digits
/// and nothing else.
pub open spec fn numeral_digits(s: Seq<char>) -> Option<Seq<char>> {
    let d = numeral_body(s);
    if d.len() > 0 && (forall|i: int| 0 <= i < d.len() ==> is_digit(#[trigger] d[i])) {
        Some(d)
    } else {
        None
    }
}

/// The value of the numeral `s` when it is well formed and at most `max`.
pub open spec fn numeral_value(s: Seq<char>, max: nat) -> Option<nat> {
    match numeral_digits(s) {
        Some(d) => if decimal_value(d) <= max {
            Some(decimal_value(d))
        } else {
            None
        },
        None => None,
    }
}

proof fn lemma_decimal_prefix(d: Seq<char>, k: int)
    requires
        0 <= k <= d.len(),
        forall|i: int| 0 <= i < d.len() ==> is_digit(#[trigger] d[i]),
    ensures
        decimal_value(d.take(k)) <= decimal_value(d),
    decreases d.len(),
{
    if k == d.len() {
        assert(d.take(k) =~= d);
    } else {
        let pre = d.drop_last();
        assert forall|i: int| 0 <= i < pre.len() implies is_digit(#[trigger] pre[i]) by {
            assert(pre[i] == d[i]);
        }
        lemma_decimal_prefix(pre, k);
        assert(pre.take(k) =~= d.take(k));
    }
}

/// Reads an unsigned decimal numeral no greater than `max`: an optional `+`
/// and one or more ASCII digits, as `from_str_radix(_, 10)` accepts them for
/// an unsigned type. Anything else, and any value above `max`, gives `None`.
pub fn parse_numeral(s: &str, max: u32) -> (r: Option<u32>)
    ensures
        match r {
            Some(v) => numeral_value(s@, max as nat) == Some(v as nat),
            None => numeral_value(s@, max as nat) is None,
        },
{
    let chars = chars_of(s);
    let n = chars.len();
    let start: usize = if n > 0 && chars[0] == '+' {
        1
    } else {
        0
    };
    let ghost d = numeral_body(s@);
    assert(d =~= chars@.skip(start as int));
    if start == n {
        return None;
    }
    let mut acc: u64 = 0;
    let mut i: usize = start;
    while i < n
        invariant
            chars@ == s@,
            n == chars@.len(),
            start <= i <= n,
            d == chars@.skip(start as int),
            d == numeral_body(s@),
            d.len() > 0,
            forall|j: int| 0 <= j < i - start ==> is_digit(#[trigger] d[j]),
            acc as nat == decimal_value(d.take(i - start)),
            acc <= max,
        decreases n - i,
    {
        let c = chars[i];
        let ghost k = i - start;
        assert(d[k] == c);
        if c < '0' || c > '9' {
            assert(!is_digit(d[k]));
            assert(numeral_digits(s@) is None);
            return None;
        }
        let digit: u64 = (c as u32 - '0' as u32) as u64;
        proof {
            assert(d.take(k + 1).drop_last() =~= d.take(k));
        }
        acc = acc * 10 + digit;
        i = i + 1;
        if acc > max as u64 {
            proof {
                if numeral_digits(s@) is Some {
                    assert(numeral_digits(s@) == Some(d));
                    assert(forall|j: int| 0 <= j < d.len() ==> is_digit(#[trigger] d[j]));
                    lemma_decimal_prefix(d, k + 1);
                }
            }
            return None;
        }
    }
    assert(d.take(d.len() as int) =~= d);
    Some(acc as u32)
}

} // verus!

verus! {

/// The empty text is no numeral.
pub proof fn lemma_numeral_empty(max: nat)
    ensures
        numeral_value(Seq::<char>::empty(), max) is None,
{
}

/// One decimal digit reads as its value, whenever that value is allowed.
pub proof fn lemma_numeral_single_digit(c: char, max: nat)
    requires
        '0' <= c && c <= '9',
        c as nat - '0' as nat <= max,
    ensures
        numeral_value(seq![c], max) == Some((c as nat - '0' as nat) as nat),
{
    let s = seq![c];
    assert(s.drop_last() =~= Seq::<char>::empty());
    assert(s[0] == c);
    assert(numeral_body(s) == s);
    assert(is_digit(s[0]));
    assert(numeral_digits(s) == Some(s));
    assert(decimal_value(Seq::<char>::empty()) == 0);
    assert(decimal_value(s) == (c as nat - '0' as nat) as nat);
}

/// Appending a digit to a run of digits multiplies its value by ten and
/// adds the digit; the numeral is refused as soon as it passes `max`.
pub proof fn lemma_numeral_push_digit(s: Seq<char>, c: char, max: nat)
    requires
        s.len() > 0,
        forall|i: int| 0 <= i < s.len() ==> '0' <= #[trigger] s[i] && s[i] <= '9',
        '0' <= c && c <= '9',
    ensures
        numeral_value(s.push(c), max) == match numeral_value(s, max) {
            Some(v) => if v * 10 + (c as nat - '0' as nat) <= max {
                Some((v * 10 + (c as nat - '0' as nat)) as nat)
            } else {
                None
            },
            None => None,
        },
{
    let t = s.push(c);
    assert(s[0] != '+');
    assert(t[0] == s[0]);
    assert(numeral_body(s) == s);
    assert(numeral_body(t) == t);
    assert forall|i: int| 0 <= i < t.len() implies is_digit(#[trigger] t[i]) by {
        if i < s.len() {
            assert(t[i] == s[i]);
        }
    }
    assert(forall|i: int| 0 <= i < s.len() ==> is_digit(#[trigger] s[i]));
    assert(numeral_digits(s) == Some(s));
    assert(numeral_digits(t) == Some(t));
    assert(t.drop_last() =~= s);
}

/// A single leading `+` is passed over.
pub proof fn lemma_numeral_plus(s: Seq<char>, max: nat)
    requires
        s.len() == 0 || s[0] != '+',
    ensures
        numeral_value(seq!['+'] + s, max) == numeral_value(s, max),
{
    let t = seq!['+'] + s;
    assert(t.skip(1) =~= s);
    assert(numeral_body(t) == s);
    assert(numeral_body(s) == s);
}

/// A character that is not a decimal digit, other than one leading `+`,
/// makes the text no numeral.
pub proof fn lemma_numeral_rejects(s: Seq<char>, i: int, max: nat)
    requires
        0 <= i < s.len(),
        !('0' <= s[i] && s[i] <= '9'),
        !(i == 0 && s[i] == '+'),
    ensures
        numeral_value(s, max) is None,
{
    let d = numeral_body(s);
    if s.len() > 0 && s[0] == '+' {
        assert(i > 0);
        assert(d[i - 1] == s[i]);
        assert(!is_digit(d[i - 1]));
    } else {
        assert(d[i] == s[i]);
        assert(!is_digit(d[i]));
    }
}

} // verus!
