//! Character-level helpers on strings: splitting on a separator,
//! splitting on white space, decimal rendering and decimal parsing.
use vstd::prelude::*;

verus! {

/// The pieces of `s` between occurrences of `sep`, as `str::split` yields them:
/// there is always at least one piece, and a separator at either end yields
/// an empty piece there.
pub open spec fn split_seq(s: Seq<char>, sep: char) -> Seq<Seq<char>>
    decreases s.len(),
{
    if s.len() == 0 {
        seq![Seq::<char>::empty()]
    } else {
        let prev = split_seq(s.drop_last(), sep);
        if s.last() == sep {
            prev.push(Seq::<char>::empty())
        } else {
            prev.update(prev.len() - 1, prev.last().push(s.last()))
        }
    }
}

pub proof fn lemma_split_nonempty(s: Seq<char>, sep: char)
    ensures
        split_seq(s, sep).len() >= 1,
    decreases s.len(),
{
    if s.len() > 0 {
        lemma_split_nonempty(s.drop_last(), sep);
    }
}

/// Splits `s` at every occurrence of `sep`.
pub fn split_on<'a>(s: &'a str, sep: char) -> (pieces: Vec<&'a str>)
    ensures
        pieces@.map_values(|p: &'a str| p@) == split_seq(s@, sep),
{
    let n = s.unicode_len();
    let mut pieces: Vec<&'a str> = Vec::new();
    let mut start: usize = 0;
    let mut i: usize = 0;
    proof {
        assert(s@.take(0) =~= Seq::<char>::empty());
        assert(s@.subrange(0, 0) =~= Seq::<char>::empty());
        assert(pieces@.map_values(|p: &'a str| p@).push(s@.subrange(0, 0)) =~= split_seq(s@.take(0), sep));
    }
    while i < n
        invariant
            n == s@.len(),
            start <= i <= n,
            pieces@.map_values(|p: &'a str| p@).push(s@.subrange(start as int, i as int))
                == split_seq(s@.take(i as int), sep),
        decreases n - i,
    {
        let ghost old_pieces = pieces@.map_values(|p: &'a str| p@);
        let ghost old_start = start;
        let c = s.get_char(i);
        proof {
            lemma_split_nonempty(s@.take(i as int), sep);
            assert(s@.take(i + 1).drop_last() =~= s@.take(i as int));
            assert(s@.take(i + 1).last() == c);
        }
        if c == sep {
            let piece = s.substring_char(start, i);
            pieces.push(piece);
            start = i + 1;
            proof {
                assert(pieces@.map_values(|p: &'a str| p@) =~= old_pieces.push(s@.subrange(old_start as int, i as int)));
                assert(s@.subrange(start as int, i + 1) =~= Seq::<char>::empty());
            }
        } else {
            proof {
                assert(s@.subrange(start as int, i + 1) =~= s@.subrange(start as int, i as int).push(c));
            }
        }
        i = i + 1;
        proof {
            assert(pieces@.map_values(|p: &'a str| p@).push(s@.subrange(start as int, i as int))
                =~= split_seq(s@.take(i as int), sep));
        }
    }
    let last = s.substring_char(start, n);
    let ghost before = pieces@.map_values(|p: &'a str| p@);
    pieces.push(last);
    proof {
        assert(s@.take(n as int) =~= s@);
        assert(pieces@.map_values(|p: &'a str| p@) =~= before.push(last@));
    }
    pieces
}


/// Unicode `White_Space`, the set that `char::is_whitespace` tests.
pub open spec fn is_ws(c: char) -> bool {
    ||| ('\u{9}' <= c && c <= '\u{d}')
    ||| c == ' '
    ||| c == '\u{85}'
    ||| c == '\u{a0}'
    ||| c == '\u{1680}'
    ||| ('\u{2000}' <= c && c <= '\u{200a}')
    ||| c == '\u{2028}'
    ||| c == '\u{2029}'
    ||| c == '\u{202f}'
    ||| c == '\u{205f}'
    ||| c == '\u{3000}'
}

pub fn is_whitespace(c: char) -> (r: bool)
    ensures
        r == is_ws(c),
{
    ('\u{9}' <= c && c <= '\u{d}') || c == ' ' || c == '\u{85}' || c == '\u{a0}' || c == '\u{1680}'
        || ('\u{2000}' <= c && c <= '\u{200a}') || c == '\u{2028}' || c == '\u{2029}' || c
        == '\u{202f}' || c == '\u{205f}' || c == '\u{3000}'
}

/// The maximal runs of non-white-space characters of `s`, in order, as
/// `str::split_whitespace` yields them.
pub open spec fn words_seq(s: Seq<char>) -> Seq<Seq<char>>
    decreases s.len(),
{
    if s.len() == 0 {
        Seq::<Seq<char>>::empty()
    } else {
        let prev = words_seq(s.drop_last());
        let c = s.last();
        if is_ws(c) {
            prev
        } else if s.len() >= 2 && !is_ws(s[s.len() - 2]) {
            prev.update(prev.len() - 1, prev.last().push(c))
        } else {
            prev.push(seq![c])
        }
    }
}

pub proof fn lemma_words_open(s: Seq<char>)
    requires
        s.len() > 0,
        !is_ws(s.last()),
    ensures
        words_seq(s).len() >= 1,
    decreases s.len(),
{
    if s.len() >= 2 && !is_ws(s[s.len() - 2]) {
        lemma_words_open(s.drop_last());
    }
}

/// Splits `s` into its white-space separated words.
pub fn split_whitespace<'a>(s: &'a str) -> (words: Vec<&'a str>)
    ensures
        words@.map_values(|p: &'a str| p@) == words_seq(s@),
{
    let n = s.unicode_len();
    let mut words: Vec<&'a str> = Vec::new();
    let mut start: usize = 0;
    let mut in_word = false;
    let mut i: usize = 0;
    proof {
        assert(s@.take(0) =~= Seq::<char>::empty());
        assert(words@.map_values(|p: &'a str| p@) =~= Seq::<Seq<char>>::empty());
    }
    while i < n
        invariant
            n == s@.len(),
            start <= i <= n,
            in_word <==> (i > 0 && !is_ws(s@[i - 1])),
            in_word ==> words@.map_values(|p: &'a str| p@).push(s@.subrange(start as int, i as int))
                == words_seq(s@.take(i as int)),
            in_word ==> start < i,
            !in_word ==> words@.map_values(|p: &'a str| p@) == words_seq(s@.take(i as int)),
        decreases n - i,
    {
        let ghost old_words = words@.map_values(|p: &'a str| p@);
        let c = s.get_char(i);
        proof {
            assert(s@.take(i + 1).drop_last() =~= s@.take(i as int));
            assert(s@.take(i + 1).last() == c);
            if i > 0 {
                assert(s@.take(i + 1)[i - 1] == s@[i - 1]);
            }
        }
        if is_whitespace(c) {
            if in_word {
                let w = s.substring_char(start, i);
                words.push(w);
                proof {
                    assert(words@.map_values(|p: &'a str| p@) =~= old_words.push(w@));
                }
            }
            in_word = false;
        } else {
            if !in_word {
                start = i;
                proof {
                    assert(s@.subrange(i as int, i + 1) =~= seq![c]);
                }
            } else {
                proof {
                    assert(s@.subrange(start as int, i + 1) =~= s@.subrange(start as int, i as int).push(c));
                }
            }
            in_word = true;
        }
        i = i + 1;
    }
    if in_word {
        let w = s.substring_char(start, n);
        let ghost before = words@.map_values(|p: &'a str| p@);
        words.push(w);
        proof {
            assert(words@.map_values(|p: &'a str| p@) =~= before.push(w@));
        }
    }
    proof {
        assert(s@.take(n as int) =~= s@);
    }
    words
}

/// True when the two texts hold the same characters.
pub fn same_text(a: &str, b: &str) -> (r: bool)
    ensures
        r == (a@ == b@),
{
    let x = a.to_owned();
    let y = b.to_owned();
    x == y
}

/// The value of a sequence of decimal digits.
pub open spec fn digits_value(s: Seq<char>) -> nat
    decreases s.len(),
{
    if s.len() == 0 {
        0
    } else {
        digits_value(s.drop_last()) * 10 + ((s.last() as nat) - ('0' as nat)) as nat
    }
}

pub open spec fn all_digits(s: Seq<char>) -> bool {
    forall|i: int| 0 <= i < s.len() ==> '0' <= #[trigger] s[i] && s[i] <= '9'
}

/// What `usize::from_str_radix(s, 10)` accepts: an optional `+` followed by
/// at least one ASCII digit, with a value that fits in a `usize`.
pub open spec fn usize_decimal(s: Seq<char>) -> Option<usize> {
    let d = if s.len() > 0 && s[0] == '+' {
        s.drop_first()
    } else {
        s
    };
    if d.len() > 0 && all_digits(d) && digits_value(d) <= usize::MAX {
        Some(digits_value(d) as usize)
    } else {
        None
    }
}

/// Parses a decimal `usize` the way `usize::from_str_radix(s, 10)` does.
pub fn parse_usize(s: &str) -> (r: Option<usize>)
    ensures
        r == usize_decimal(s@),
{
    let n = s.unicode_len();
    let mut i: usize = 0;
    if n > 0 && s.get_char(0) == '+' {
        i = 1;
    }
    if i >= n {
        return None;
    }
    let ghost d = s@.subrange(i as int, n as int);
    proof {
        if i == 1 {
            assert(d =~= s@.drop_first());
        } else {
            assert(d =~= s@);
        }
    }
    let start = i;
    let mut acc: usize = 0;
    while i < n
        invariant
            n == s@.len(),
            start <= i <= n,
            d == s@.subrange(start as int, n as int),
            d == (if s@.len() > 0 && s@[0] == '+' { s@.drop_first() } else { s@ }),
            d.len() > 0,
            all_digits(s@.subrange(start as int, i as int)),
            acc == digits_value(s@.subrange(start as int, i as int)),
        decreases n - i,
    {
        let c = s.get_char(i);
        let ghost pre = s@.subrange(start as int, i as int);
        proof {
            assert(s@.subrange(start as int, i + 1) =~= pre.push(c));
            assert(s@.subrange(start as int, i + 1).drop_last() =~= pre);
        }
        if c < '0' || c > '9' {
            proof {
                let k = i - start;
                assert(d[k as int] == c);
                assert(!('0' <= d[k as int] && d[k as int] <= '9'));
                assert(!all_digits(d));
            }
            return None;
        }
        let v = (c as u32 - '0' as u32) as usize;
        if acc > (usize::MAX - v) / 10 {
            proof {
                if all_digits(d) {
                    lemma_digits_prefix_le(d, (i - start) as nat + 1);
                }
                assert(d.subrange(0, (i - start) + 1) =~= s@.subrange(start as int, i + 1));
                assert(digits_value(s@.subrange(start as int, i + 1)) == acc * 10 + v) ;
                assert(acc * 10 + v > usize::MAX) by (nonlinear_arith)
                    requires acc > (usize::MAX - v) / 10, v <= 9;
            }
            return None;
        }
        proof {
            assert(acc * 10 + v <= usize::MAX) by (nonlinear_arith)
                requires acc <= (usize::MAX - v) / 10, v <= 9;
        }
        acc = acc * 10 + v;
        i = i + 1;
    }
    proof {
        assert(s@.subrange(start as int, n as int) =~= d);
    }
    Some(acc)
}

/// Digits-prefix monotonicity: a prefix of an all-digit sequence never has a
/// larger value than the whole.
pub proof fn lemma_digits_prefix_le(d: Seq<char>, k: nat)
    requires
        k <= d.len(),
        all_digits(d),
    ensures
        digits_value(d.subrange(0, k as int)) <= digits_value(d),
    decreases d.len() - k,
{
    if k < d.len() {
        lemma_digits_prefix_le(d, k + 1);
        let p = d.subrange(0, k as int);
        let q = d.subrange(0, (k + 1) as int);
        assert(q.drop_last() =~= p);
        assert(digits_value(q) == digits_value(p) * 10 + ((q.last() as nat) - ('0' as nat)) as nat);
    } else {
        assert(d.subrange(0, k as int) =~= d);
    }
}


/// The ASCII digit for `d < 10`.
pub open spec fn digit_char(d: nat) -> char {
    if d == 0 { '0' }
    else if d == 1 { '1' }
    else if d == 2 { '2' }
    else if d == 3 { '3' }
    else if d == 4 { '4' }
    else if d == 5 { '5' }
    else if d == 6 { '6' }
    else if d == 7 { '7' }
    else if d == 8 { '8' }
    else { '9' }
}

/// The decimal text of `n`, without leading zeros, as `Display` writes it.
pub open spec fn decimal_text(n: nat) -> Seq<char>
    decreases n,
{
    if n < 10 {
        seq![digit_char(n)]
    } else {
        decimal_text(n / 10).push(digit_char(n % 10))
    }
}

fn digit_str(d: usize) -> (r: &'static str)
    requires
        d < 10,
    ensures
        r@ == seq![digit_char(d as nat)],
{
    if d == 0 {
        proof { reveal_strlit("0"); }
        "0"
    } else if d == 1 {
        proof { reveal_strlit("1"); }
        "1"
    } else if d == 2 {
        proof { reveal_strlit("2"); }
        "2"
    } else if d == 3 {
        proof { reveal_strlit("3"); }
        "3"
    } else if d == 4 {
        proof { reveal_strlit("4"); }
        "4"
    } else if d == 5 {
        proof { reveal_strlit("5"); }
        "5"
    } else if d == 6 {
        proof { reveal_strlit("6"); }
        "6"
    } else if d == 7 {
        proof { reveal_strlit("7"); }
        "7"
    } else if d == 8 {
        proof { reveal_strlit("8"); }
        "8"
    } else {
        proof { reveal_strlit("9"); }
        "9"
    }
}

/// Renders `n` in decimal.
pub fn decimal(n: usize) -> (r: String)
    ensures
        r@ == decimal_text(n as nat),
    decreases n,
{
    if n < 10 {
        String::from_str(digit_str(n))
    } else {
        let mut r = decimal(n / 10);
        r.append(digit_str(n % 10));
        r
    }
}

/// A text without the separator is one piece.
pub proof fn lemma_split_whole(z: Seq<char>, sep: char)
    requires
        !z.contains(sep),
    ensures
        split_seq(z, sep) == seq![z],
    decreases z.len(),
{
    if z.len() > 0 {
        let pre = z.drop_last();
        assert(!pre.contains(sep)) by {
            if pre.contains(sep) {
                let i = choose|i: int| 0 <= i < pre.len() && pre[i] == sep;
                assert(z[i] == sep);
            }
        }
        lemma_split_whole(pre, sep);
        assert(z[z.len() - 1] != sep);
        assert(pre.push(z.last()) =~= z);
        assert(seq![pre].update(0, pre.push(z.last())) =~= seq![z]);
    } else {
        assert(z =~= Seq::<char>::empty());
    }
}

/// Splitting two texts joined by the separator gives the pieces of the first,
/// then those of the second.
pub proof fn lemma_split_join(x: Seq<char>, y: Seq<char>, sep: char)
    ensures
        split_seq(x + seq![sep] + y, sep) == split_seq(x, sep) + split_seq(y, sep),
    decreases y.len(),
{
    lemma_split_nonempty(x, sep);
    lemma_split_nonempty(y, sep);
    if y.len() == 0 {
        let w = x + seq![sep];
        assert(x + seq![sep] + y =~= w);
        assert(w.drop_last() =~= x);
        assert(w.last() == sep);
        assert(split_seq(y, sep) =~= seq![Seq::<char>::empty()]);
        assert(split_seq(x, sep).push(Seq::<char>::empty()) =~= split_seq(x, sep) + split_seq(y, sep));
    } else {
        let w = x + seq![sep] + y;
        let y1 = y.drop_last();
        lemma_split_join(x, y1, sep);
        lemma_split_nonempty(y1, sep);
        assert(w.drop_last() =~= x + seq![sep] + y1);
        assert(w.last() == y.last());
        let a = split_seq(x, sep);
        let b1 = split_seq(y1, sep);
        if y.last() == sep {
            assert((a + b1).push(Seq::<char>::empty()) =~= a + b1.push(Seq::<char>::empty()));
        } else {
            let prev = a + b1;
            assert(prev.last() == b1.last());
            assert(prev.update(prev.len() - 1, prev.last().push(y.last())) =~= a + b1.update(
                b1.len() - 1,
                b1.last().push(y.last()),
            ));
        }
    }
}

/// A decimal `usize` holds no character but an optional `+` and digits.
pub proof fn lemma_decimal_chars(d: Seq<char>, c: char)
    requires
        usize_decimal(d) is Some,
        c != '+',
        !('0' <= c && c <= '9'),
    ensures
        !d.contains(c),
{
    let e = if d.len() > 0 && d[0] == '+' { d.drop_first() } else { d };
    if d.contains(c) {
        let i = choose|i: int| 0 <= i < d.len() && d[i] == c;
        if d.len() > 0 && d[0] == '+' {
            assert(i > 0);
            assert(e[i - 1] == d[i]);
        } else {
            assert(e[i] == d[i]);
        }
    }
}

} // verus!
