use vstd::prelude::*;
use std::cmp::Ordering;

verus! {

/// The character of a decimal digit.
pub open spec fn digit_char(d: nat) -> char {
    if d == 0 { '0' }
    else if d == 1 { '1' }
    else if d == 2 { '2' }
    else if d == 3 { '3' }
    else if d == 4 { '4' }
    else if d == 5 { '5' }
    else if d == 6 { '6' }
    else if d == 7 { '7' }
    else if d == 8 { '8' }
    else { '9' }
}

/// The decimal rendering of a natural number, without sign or leading zeros.
pub open spec fn decimal(n: nat) -> Seq<char>
    decreases n,
{
    if n < 10 {
        seq![digit_char(n)]
    } else {
        decimal(n / 10).push(digit_char(n % 10))
    }
}

/// The text of one decimal digit.
fn digit_str(d: u64) -> (r: &'static str)
    requires
        d < 10,
    ensures
        r@ == seq![digit_char(d as nat)],
{
    proof {
        reveal_strlit("0");
        reveal_strlit("1");
        reveal_strlit("2");
        reveal_strlit("3");
        reveal_strlit("4");
        reveal_strlit("5");
        reveal_strlit("6");
        reveal_strlit("7");
        reveal_strlit("8");
        reveal_strlit("9");
    }
    if d == 0 {
        assert("0"@ =~= seq!['0']);
        "0"
    } else if d == 1 {
        assert("1"@ =~= seq!['1']);
        "1"
    } else if d == 2 {
        assert("2"@ =~= seq!['2']);
        "2"
    } else if d == 3 {
        assert("3"@ =~= seq!['3']);
        "3"
    } else if d == 4 {
        assert("4"@ =~= seq!['4']);
        "4"
    } else if d == 5 {
        assert("5"@ =~= seq!['5']);
        "5"
    } else if d == 6 {
        assert("6"@ =~= seq!['6']);
        "6"
    } else if d == 7 {
        assert("7"@ =~= seq!['7']);
        "7"
    } else if d == 8 {
        assert("8"@ =~= seq!['8']);
        "8"
    } else {
        assert("9"@ =~= seq!['9']);
        "9"
    }
}

/// The decimal form of a number, without sign or leading zeros.
pub fn u64_to_decimal(n: u64) -> (r: String)
    ensures
        r@ == decimal(n as nat),
{
    let mut m: u64 = n;
    let mut res = String::new();
    while m >= 10
        invariant
            decimal(n as nat) == decimal(m as nat) + res@,
        decreases m,
    {
        let d = digit_str(m % 10);
        let next = concat_str(d, res.as_str());
        proof {
            assert(decimal(m as nat) == decimal((m / 10) as nat).push(digit_char((m % 10) as nat)));
            assert(decimal(m as nat) + res@ =~= decimal((m / 10) as nat) + next@);
        }
        res = next;
        m = m / 10;
    }
    let d = digit_str(m);
    let r = concat_str(d, res.as_str());
    assert(decimal(n as nat) =~= r@);
    r
}

/// Concatenation of two strings into a new one.
pub fn concat_str(a: &str, b: &str) -> (r: String)
    ensures
        r@ == a@ + b@,
{
    let mut s = String::from_str(a);
    s.append(b);
    s
}

/// The text `key:value` of one pair.
pub open spec fn pair_text(p: (Seq<char>, Seq<char>)) -> Seq<char> {
    p.0 + seq![':'] + p.1
}

/// The texts of the pairs, separated by commas.
pub open spec fn joined_pairs(p: Seq<(Seq<char>, Seq<char>)>) -> Seq<char>
    decreases p.len(),
{
    if p.len() == 0 {
        Seq::empty()
    } else if p.len() == 1 {
        pair_text(p[0])
    } else {
        joined_pairs(p.drop_last()) + seq![','] + pair_text(p.last())
    }
}

/// The text `{k1:v1,k2:v2,...}` of a sequence of pairs, in the sequence's order.
pub open spec fn rendered_pairs(p: Seq<(Seq<char>, Seq<char>)>) -> Seq<char> {
    seq!['{'] + joined_pairs(p) + seq!['}']
}

/// The text `{k1:v1,k2:v2,...}` of the pairs, in the order given.
pub fn render_pairs(pairs: &Vec<(String, String)>) -> (r: String)
    ensures
        r@ == rendered_pairs(pairs@.map_values(|p: (String, String)| (p.0@, p.1@))),
{
    let ghost views = pairs@.map_values(|p: (String, String)| (p.0@, p.1@));
    let mut res = String::from_str("{");
    proof {
        reveal_strlit("{");
        reveal_strlit(",");
        reveal_strlit(":");
        reveal_strlit("}");
    }
    let mut i: usize = 0;
    while i < pairs.len()
        invariant
            0 <= i <= pairs@.len(),
            views == pairs@.map_values(|p: (String, String)| (p.0@, p.1@)),
            res@ == seq!['{'] + joined_pairs(views.take(i as int)),
        decreases pairs@.len() - i,
    {
        assert(views.take(i + 1).drop_last() =~= views.take(i as int));
        if i > 0 {
            res.append(",");
        }
        res.append(pairs[i].0.as_str());
        res.append(":");
        res.append(pairs[i].1.as_str());
        proof {
            reveal_strlit(",");
            reveal_strlit(":");
            let t = views.take(i + 1);
            assert(t.last() == views[i as int]);
            assert(views[i as int] == (pairs@[i as int].0@, pairs@[i as int].1@));
            if i == 0 {
                assert(views.take(0) =~= Seq::<(Seq<char>, Seq<char>)>::empty());
                assert(t.len() == 1);
                assert(joined_pairs(t) == pair_text(t[0]));
            } else {
                assert(joined_pairs(t) == joined_pairs(t.drop_last()) + seq![','] + pair_text(t.last()));
            }
            assert(res@ =~= seq!['{'] + joined_pairs(views.take(i + 1)));
        }
        i = i + 1;
    }
    assert(views.take(i as int) =~= views);
    res.append("}");
    proof {
        reveal_strlit("}");
    }
    assert(res@ =~= rendered_pairs(views));
    res
}

/// The texts joined by commas.
pub open spec fn comma_joined(t: Seq<Seq<char>>) -> Seq<char>
    decreases t.len(),
{
    if t.len() == 0 {
        Seq::empty()
    } else if t.len() == 1 {
        t[0]
    } else {
        comma_joined(t.drop_last()) + seq![','] + t.last()
    }
}

/// The strings joined by commas.
pub fn join_commas(v: &Vec<String>) -> (r: String)
    ensures
        r@ == comma_joined(v@.map_values(|s: String| s@)),
{
    let ghost views = v@.map_values(|s: String| s@);
    let mut res = String::new();
    let mut i: usize = 0;
    while i < v.len()
        invariant
            0 <= i <= v@.len(),
            views == v@.map_values(|s: String| s@),
            res@ == comma_joined(views.take(i as int)),
        decreases v@.len() - i,
    {
        if i > 0 {
            res.append(",");
        }
        res.append(v[i].as_str());
        proof {
            reveal_strlit(",");
            let t = views.take(i + 1);
            assert(t.drop_last() =~= views.take(i as int));
            assert(t.last() == v@[i as int]@);
            if i == 0 {
                assert(views.take(0) =~= Seq::<Seq<char>>::empty());
                assert(comma_joined(t) == t[0]);
            } else {
                assert(comma_joined(t) == comma_joined(t.drop_last()) + seq![','] + t.last());
            }
            assert(res@ =~= comma_joined(t));
        }
        i = i + 1;
    }
    assert(views.take(i as int) =~= views);
    res
}

/// Lexicographic comparison of two character sequences from index `i` on, by code point.
pub open spec fn chars_cmp_from(a: Seq<char>, b: Seq<char>, i: int) -> Ordering
    decreases a.len() - i,
{
    if i >= a.len() || i >= b.len() || i < 0 {
        if a.len() < b.len() {
            Ordering::Less
        } else if a.len() > b.len() {
            Ordering::Greater
        } else {
            Ordering::Equal
        }
    } else if (a[i] as int) < (b[i] as int) {
        Ordering::Less
    } else if (a[i] as int) > (b[i] as int) {
        Ordering::Greater
    } else {
        chars_cmp_from(a, b, i + 1)
    }
}

/// Lexicographic order of strings, by code point (the order of `str`).
pub open spec fn chars_cmp(a: Seq<char>, b: Seq<char>) -> Ordering {
    chars_cmp_from(a, b, 0)
}

/// Whether `a` sorts strictly before `b`.
pub open spec fn chars_lt(a: Seq<char>, b: Seq<char>) -> bool {
    chars_cmp(a, b) == Ordering::Less
}

proof fn lemma_chars_cmp_from(a: Seq<char>, b: Seq<char>, i: int)
    requires
        0 <= i <= a.len(),
        i <= b.len(),
        a.subrange(0, i) == b.subrange(0, i),
    ensures
        chars_cmp_from(a, b, i) == Ordering::Equal <==> a == b,
        chars_cmp_from(a, b, i) == Ordering::Less <==> chars_cmp_from(b, a, i) == Ordering::Greater,
    decreases a.len() - i,
{
    if i < a.len() && i < b.len() {
        if a[i] == b[i] {
            assert(a.subrange(0, i + 1) =~= b.subrange(0, i + 1)) by {
                assert forall|j: int| 0 <= j < i + 1 implies #[trigger] a.subrange(0, i + 1)[j] == b.subrange(0, i + 1)[j] by {
                    if j < i {
                        assert(a.subrange(0, i)[j] == b.subrange(0, i)[j]);
                    }
                }
            }
            lemma_chars_cmp_from(a, b, i + 1);
        } else {
            assert((a[i] as int) != (b[i] as int));
        }
    } else if a.len() == b.len() {
        assert(a =~= a.subrange(0, i));
        assert(b =~= b.subrange(0, i));
    }
}

proof fn lemma_chars_cmp_from_trans(a: Seq<char>, b: Seq<char>, c: Seq<char>, i: int)
    requires
        0 <= i <= a.len(),
        i <= b.len(),
        i <= c.len(),
        chars_cmp_from(a, b, i) == Ordering::Less,
        chars_cmp_from(b, c, i) == Ordering::Less,
    ensures
        chars_cmp_from(a, c, i) == Ordering::Less,
    decreases a.len() - i,
{
    if i < a.len() && i < b.len() && i < c.len() && a[i] == b[i] && b[i] == c[i] {
        lemma_chars_cmp_from_trans(a, b, c, i + 1);
    }
}

/// The order of strings is a strict total order: `Equal` exactly for equal strings, the
/// answer reverses when the arguments swap, and `Less` is transitive.
pub proof fn lemma_chars_order(a: Seq<char>, b: Seq<char>, c: Seq<char>)
    ensures
        chars_cmp(a, b) == Ordering::Equal <==> a == b,
        chars_lt(a, b) <==> chars_cmp(b, a) == Ordering::Greater,
        chars_lt(a, b) && chars_lt(b, c) ==> chars_lt(a, c),
{
    assert(a.subrange(0, 0) =~= b.subrange(0, 0));
    lemma_chars_cmp_from(a, b, 0);
    if chars_lt(a, b) && chars_lt(b, c) {
        lemma_chars_cmp_from_trans(a, b, c, 0);
    }
}

/// Compares two strings lexicographically by code point.
pub fn compare_str(a: &str, b: &str) -> (r: Ordering)
    ensures
        r == chars_cmp(a@, b@),
{
    let n = a.unicode_len();
    let m = b.unicode_len();
    let mut i: usize = 0;
    while i < n && i < m
        invariant
            n == a@.len(),
            m == b@.len(),
            0 <= i <= n,
            i <= m,
            chars_cmp(a@, b@) == chars_cmp_from(a@, b@, i as int),
        decreases n - i,
    {
        let x = a.get_char(i);
        let y = b.get_char(i);
        if x < y {
            return Ordering::Less;
        } else if x > y {
            return Ordering::Greater;
        }
        i = i + 1;
    }
    if n < m {
        Ordering::Less
    } else if n > m {
        Ordering::Greater
    } else {
        Ordering::Equal
    }
}

} // verus!
