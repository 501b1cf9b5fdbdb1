//! Character-level text utilities: whitespace tokenization, separator
//! splitting and decimal numerals, with exact models of each.

use vstd::prelude::*;
use vstd::string::StrSliceExecFns;

verus! {

/// The whitespace that separates the tokens of a configuration sentence:
/// space, tab, line feed, vertical tab, form feed and carriage return.
pub open spec fn is_space(c: char) -> bool {
    c == ' ' || c == '\t' || c == '\n' || c == '\u{b}' || c == '\u{c}' || c == '\r'
}

/// The whitespace-delimited tokens of `s`, in order; separators of any length
/// vanish, so every token is nonempty and free of whitespace.
pub open spec fn tokens_of(s: Seq<char>) -> Seq<Seq<char>>
    decreases s.len(),
{
    if s.len() == 0 {
        Seq::empty()
    } else {
        let rest = tokens_of(s.drop_last());
        let c = s.last();
        if is_space(c) {
            rest
        } else if s.len() >= 2 && !is_space(s[s.len() - 2]) {
            rest.update(rest.len() - 1, rest.last().push(c))
        } else {
            rest.push(seq![c])
        }
    }
}

proof fn lemma_tokens_skip_space(s: Seq<char>, i: int)
    requires
        0 <= i < s.len(),
        is_space(s[i]),
    ensures
        tokens_of(s.take(i + 1)) == tokens_of(s.take(i)),
{
    assert(s.take(i + 1).drop_last() =~= s.take(i));
    assert(s.take(i + 1).last() == s[i]);
}

proof fn lemma_tokens_extend_token(s: Seq<char>, i: int, j: int)
    requires
        0 <= i < j <= s.len(),
        i == 0 || is_space(s[i - 1]),
        forall|t: int| i <= t < j ==> !is_space(#[trigger] s[t]),
    ensures
        tokens_of(s.take(j)) == tokens_of(s.take(i)).push(s.subrange(i, j)),
    decreases j - i,
{
    if j == i + 1 {
        assert(s.take(j).drop_last() =~= s.take(i));
        assert(s.take(j).last() == s[i]);
        assert(!is_space(s[i]));
        assert(s.subrange(i, j) =~= seq![s[i]]);
    } else {
        lemma_tokens_extend_token(s, i, j - 1);
        assert(s.take(j).drop_last() =~= s.take(j - 1));
        assert(s.take(j).last() == s[j - 1]);
        assert(!is_space(s[j - 2]));
        let rest = tokens_of(s.take(j - 1));
        assert(rest == tokens_of(s.take(i)).push(s.subrange(i, j - 1)));
        assert(rest.len() >= 1);
        assert(rest.last() == s.subrange(i, j - 1));
        assert(s.subrange(i, j - 1).push(s[j - 1]) =~= s.subrange(i, j));
        assert(rest.update(rest.len() - 1, rest.last().push(s[j - 1])) =~= tokens_of(
            s.take(i),
        ).push(s.subrange(i, j)));
    }
}

fn space_at(s: &str, j: usize) -> (r: bool)
    requires
        j < s@.len(),
    ensures
        r == is_space(s@[j as int]),
{
    let c = s.get_char(j);
    c == ' ' || c == '\t' || c == '\n' || c == '\u{b}' || c == '\u{c}' || c == '\r'
}

/// Split `s` at runs of whitespace, restricted to the six separator
/// characters above.
pub fn split_whitespace_of(s: &str) -> (r: Vec<String>)
    ensures
        r.deep_view() == tokens_of(s@),
{
    let n = s.unicode_len();
    let mut r: Vec<String> = Vec::new();
    let mut i: usize = 0;
    while i < n
        invariant
            n == s@.len(),
            i <= n,
            r.deep_view() == tokens_of(s@.take(i as int)),
            i < n && !is_space(s@[i as int]) ==> i == 0 || is_space(s@[i as int - 1]),
        decreases n - i,
    {
        if space_at(s, i) {
            proof {
                lemma_tokens_skip_space(s@, i as int);
            }
            i += 1;
        } else {
            let mut j: usize = i + 1;
            while j < n && !space_at(s, j)
                invariant
                    n == s@.len(),
                    i < j <= n,
                    forall|t: int| i <= t < j ==> !is_space(#[trigger] s@[t]),
                decreases n - j,
            {
                j += 1;
            }
            let piece = s.substring_char(i, j);
            let owned = piece.to_owned();
            r.push(owned);
            proof {
                lemma_tokens_extend_token(s@, i as int, j as int);
                assert(r.deep_view() =~= tokens_of(s@.take(j as int)));
            }
            i = j;
        }
    }
    proof {
        assert(s@.take(n as int) =~= s@);
    }
    r
}

/// The pieces of `s` between occurrences of `sep`, in order, separators
/// dropped; empty pieces are kept, and the empty sequence has one empty piece.
pub open spec fn split_of<A>(s: Seq<A>, sep: A) -> Seq<Seq<A>>
    decreases s.len(),
{
    if s.len() == 0 {
        seq![Seq::empty()]
    } else {
        let rest = split_of(s.drop_last(), sep);
        let c = s.last();
        if c == sep {
            rest.push(Seq::empty())
        } else {
            rest.update(rest.len() - 1, rest.last().push(c))
        }
    }
}

pub proof fn lemma_split_nonempty<A>(s: Seq<A>, sep: A)
    ensures
        split_of(s, sep).len() >= 1,
    decreases s.len(),
{
    if s.len() > 0 {
        lemma_split_nonempty(s.drop_last(), sep);
    }
}

proof fn lemma_split_boundary_last_empty<A>(s: Seq<A>, sep: A, i: int)
    requires
        0 <= i <= s.len(),
        i == 0 || s[i - 1] == sep,
    ensures
        split_of(s.take(i), sep).last() =~= Seq::<A>::empty(),
{
    if i == 0 {
        assert(s.take(0) =~= Seq::<A>::empty());
    } else {
        assert(s.take(i).drop_last() =~= s.take(i - 1));
        assert(s.take(i).last() == s[i - 1]);
    }
}

pub proof fn lemma_split_grow<A>(s: Seq<A>, sep: A, i: int, j: int)
    requires
        0 <= i <= j <= s.len(),
        i == 0 || s[i - 1] == sep,
        forall|t: int| i <= t < j ==> #[trigger] s[t] != sep,
    ensures
        split_of(s.take(j), sep) =~= split_of(s.take(i), sep).update(
            split_of(s.take(i), sep).len() - 1,
            s.subrange(i, j),
        ),
    decreases j - i,
{
    lemma_split_nonempty(s.take(i), sep);
    lemma_split_boundary_last_empty(s, sep, i);
    let base = split_of(s.take(i), sep);
    if i == j {
        assert(s.subrange(i, i) =~= Seq::<A>::empty());
        assert(base.update(base.len() - 1, s.subrange(i, j)) =~= base);
    } else {
        lemma_split_grow(s, sep, i, j - 1);
        assert(s.take(j).drop_last() =~= s.take(j - 1));
        assert(s.take(j).last() == s[j - 1]);
        let rest = split_of(s.take(j - 1), sep);
        assert(rest.last() == s.subrange(i, j - 1));
        assert(s.subrange(i, j - 1).push(s[j - 1]) =~= s.subrange(i, j));
        assert(rest.update(rest.len() - 1, rest.last().push(s[j - 1])) =~= base.update(
            base.len() - 1,
            s.subrange(i, j),
        ));
    }
}

pub proof fn lemma_split_step_sep<A>(s: Seq<A>, sep: A, j: int)
    requires
        0 <= j < s.len(),
        s[j] == sep,
    ensures
        split_of(s.take(j + 1), sep) == split_of(s.take(j), sep).push(Seq::<A>::empty()),
{
    assert(s.take(j + 1).drop_last() =~= s.take(j));
    assert(s.take(j + 1).last() == s[j]);
}

/// Split `s` at every occurrence of `sep`, keeping empty pieces.
pub fn split_on(s: &str, sep: char) -> (r: Vec<String>)
    ensures
        r.deep_view() == split_of(s@, sep),
        r@.len() >= 1,
{
    let n = s.unicode_len();
    let mut r: Vec<String> = Vec::new();
    let mut i: usize = 0;
    loop
        invariant
            n == s@.len(),
            i <= n,
            i == 0 || s@[i as int - 1] == sep,
            split_of(s@.take(i as int), sep) =~= r.deep_view().push(Seq::<char>::empty()),
        decreases n - i,
    {
        let mut j: usize = i;
        while j < n && s.get_char(j) != sep
            invariant
                n == s@.len(),
                i <= j <= n,
                forall|t: int| i <= t < j ==> #[trigger] s@[t] != sep,
            decreases n - j,
        {
            j += 1;
        }
        let piece = s.substring_char(i, j);
        let owned = piece.to_owned();
        r.push(owned);
        proof {
            lemma_split_grow(s@, sep, i as int, j as int);
            assert(r.deep_view() =~= split_of(s@.take(j as int), sep));
        }
        if j == n {
            proof {
                assert(s@.take(n as int) =~= s@);
            }
            return r;
        }
        proof {
            lemma_split_step_sep(s@, sep, j as int);
            assert(split_of(s@.take(j as int + 1), sep) =~= r.deep_view().push(
                Seq::<char>::empty(),
            ));
        }
        i = j + 1;
    }
}

/// An ASCII decimal digit.
pub open spec fn is_digit(c: char) -> bool {
    48 <= c as u32 && c as u32 <= 57
}

/// The value of one digit.
pub open spec fn digit_val(c: char) -> nat {
    (c as u32 - 48) as nat
}

/// The digit character for a value below ten.
pub open spec fn digit_char(d: nat) -> char {
    if d == 0 {
        '0'
    } else if d == 1 {
        '1'
    } else if d == 2 {
        '2'
    } else if d == 3 {
        '3'
    } else if d == 4 {
        '4'
    } else if d == 5 {
        '5'
    } else if d == 6 {
        '6'
    } else if d == 7 {
        '7'
    } else if d == 8 {
        '8'
    } else {
        '9'
    }
}

proof fn lemma_digit_char_val(d: nat)
    requires
        d < 10,
    ensures
        digit_val(digit_char(d)) == d,
        is_digit(digit_char(d)),
{
}

proof fn lemma_digit_roundtrip(c: char)
    requires
        is_digit(c),
    ensures
        digit_char(digit_val(c)) == c,
        digit_val(c) < 10,
{
}

pub open spec fn all_digits(s: Seq<char>) -> bool {
    forall|i: int| 0 <= i < s.len() ==> is_digit(#[trigger] s[i])
}

/// The value of a digit string, most significant digit first.
pub open spec fn digits_val(s: Seq<char>) -> nat
    decreases s.len(),
{
    if s.len() == 0 {
        0
    } else {
        digits_val(s.drop_last()) * 10 + digit_val(s.last())
    }
}

/// What `str::parse` accepts for an unsigned integer, value bound aside:
/// an optional leading plus sign, then at least one digit.
pub open spec fn is_unsigned_numeral(s: Seq<char>) -> bool {
    if s.len() >= 1 && s[0] == '+' {
        s.len() >= 2 && all_digits(s.skip(1))
    } else {
        s.len() >= 1 && all_digits(s)
    }
}

/// The digits of an accepted numeral, sign dropped.
pub open spec fn numeral_digits(s: Seq<char>) -> Seq<char> {
    if s.len() >= 1 && s[0] == '+' {
        s.skip(1)
    } else {
        s
    }
}

/// A prefix of a digit string never has a larger value.
pub proof fn lemma_digits_val_take_le(s: Seq<char>, k: int)
    requires
        0 <= k <= s.len(),
    ensures
        digits_val(s.take(k)) <= digits_val(s),
    decreases s.len() - k,
{
    if k < s.len() {
        lemma_digits_val_take_le(s, k + 1);
        assert(s.take(k + 1).drop_last() =~= s.take(k));
        assert(digits_val(s.take(k)) <= digits_val(s.take(k + 1)));
    } else {
        assert(s.take(k) =~= s);
    }
}

/// Parse a decimal numeral as `str::parse::<usize>` does: `Some` exactly for
/// an optionally plus-signed digit string whose value fits.
pub fn parse_usize(s: &str) -> (r: Option<usize>)
    ensures
        match r {
            Some(v) => is_unsigned_numeral(s@) && digits_val(numeral_digits(s@)) == v,
            None => !is_unsigned_numeral(s@) || digits_val(numeral_digits(s@)) > usize::MAX,
        },
{
    let n = s.unicode_len();
    if n == 0 {
        return None;
    }
    let start: usize = if s.get_char(0) == '+' {
        1
    } else {
        0
    };
    if n == start {
        return None;
    }
    let ghost body = numeral_digits(s@);
    proof {
        assert(body =~= s@.skip(start as int));
    }
    let mut acc: usize = 0;
    let mut i: usize = start;
    while i < n
        invariant
            n == s@.len(),
            start <= i <= n,
            start < n,
            start == (if s@[0] == '+' { 1int } else { 0int }),
            body == s@.skip(start as int),
            forall|t: int| start <= t < i ==> is_digit(#[trigger] s@[t]),
            acc == digits_val(body.take(i - start)),
        decreases n - i,
    {
        let c = s.get_char(i);
        let cv = c as u32;
        if cv < 48 || cv > 57 {
            proof {
                assert(!is_digit(s@[i as int]));
                assert(body[i - start] == s@[i as int]);
                assert(!all_digits(body));
                if s@[0] == '+' {
                    assert(start == 1);
                } else {
                    assert(start == 0);
                    assert(body =~= s@);
                }
                assert(!is_unsigned_numeral(s@));
            }
            return None;
        }
        let d = (cv - 48) as usize;
        proof {
            assert(body.take(i + 1 - start).drop_last() =~= body.take(i - start));
            assert(body.take(i + 1 - start).last() == s@[i as int]);
        }
        let stretched = match acc.checked_mul(10) {
            Some(m) => m.checked_add(d),
            None => None,
        };
        match stretched {
            Some(v) => {
                acc = v;
            },
            None => {
                proof {
                    assert(digit_val(s@[i as int]) == d);
                    assert(digits_val(body.take(i + 1 - start)) == acc * 10 + d);
                    lemma_digits_val_take_le(body, i + 1 - start);
                    assert(digits_val(body) > usize::MAX);
                    if start == 0 {
                        assert(body =~= s@);
                    }
                    assert(body == numeral_digits(s@));
                }
                return None;
            },
        }
        i += 1;
    }
    proof {
        assert(body.take(n - start) =~= body);
    }
    Some(acc)
}

/// The shortest digit string for a number: no leading zero except for zero
/// itself.
pub open spec fn numeral_of(n: nat) -> Seq<char>
    decreases n,
{
    if n < 10 {
        seq![digit_char(n)]
    } else {
        numeral_of(n / 10).push(digit_char(n % 10))
    }
}

proof fn lemma_numeral_of_sound(n: nat)
    ensures
        numeral_of(n).len() >= 1,
        all_digits(numeral_of(n)),
        digits_val(numeral_of(n)) == n,
        numeral_of(n)[0] != '0' || n < 10,
    decreases n,
{
    if n < 10 {
        lemma_digit_char_val(n);
        assert(numeral_of(n).drop_last() =~= Seq::<char>::empty());
        assert(digits_val(Seq::<char>::empty()) == 0);
        assert(digits_val(numeral_of(n)) == 0 * 10 + digit_val(digit_char(n)));
    } else {
        lemma_numeral_of_sound(n / 10);
        lemma_digit_char_val(n % 10);
        assert(numeral_of(n).drop_last() =~= numeral_of(n / 10));
        assert(numeral_of(n).last() == digit_char(n % 10));
        assert(n / 10 * 10 + n % 10 == n) by {
            vstd::arithmetic::div_mod::lemma_fundamental_div_mod(n as int, 10);
        }
        assert(n / 10 >= 1);
        assert(numeral_of(n / 10)[0] != '0') by {
            if n / 10 < 10 {
            }
        }
        assert forall|i: int| 0 <= i < numeral_of(n).len() implies is_digit(
            #[trigger] numeral_of(n)[i],
        ) by {
            if i < numeral_of(n).len() - 1 {
                assert(numeral_of(n)[i] == numeral_of(n / 10)[i]);
            }
        }
    }
}

/// A digit string without a leading zero is reproduced by `numeral_of`.
pub proof fn lemma_numeral_of_canon(s: Seq<char>)
    requires
        s.len() >= 1,
        all_digits(s),
        s[0] != '0' || s.len() == 1,
    ensures
        numeral_of(digits_val(s)) == s,
    decreases s.len(),
{
    let v = digits_val(s);
    if s.len() == 1 {
        assert(s.drop_last() =~= Seq::<char>::empty());
        assert(digits_val(Seq::<char>::empty()) == 0);
        lemma_digit_roundtrip(s[0]);
        assert(s.last() == s[0]);
        assert(v == 0 * 10 + digit_val(s[0]));
        assert(v < 10);
        assert(numeral_of(v) == seq![digit_char(v)]);
        assert(digit_char(digit_val(s[0])) == s[0]);
        assert(numeral_of(v) =~= s);
    } else {
        let front = s.drop_last();
        lemma_numeral_of_canon(front);
        let fv = digits_val(front);
        assert(v == fv * 10 + digit_val(s.last()));
        assert(fv >= 1) by {
            lemma_digits_val_take_le(front, 1);
            assert(front[0] == s[0]);
            assert(front.take(1).drop_last() =~= Seq::<char>::empty());
            assert(front.take(1).last() == front[0]);
            assert(digits_val(Seq::<char>::empty()) == 0);
            assert(digits_val(front.take(1)) == 0 * 10 + digit_val(front[0]));
            lemma_digit_roundtrip(s[0]);
            if digit_val(s[0]) == 0 {
                assert(s[0] == digit_char(0));
            }
            assert(digit_val(s[0]) >= 1);
        }
        assert(v >= 10) by (nonlinear_arith)
            requires
                v == fv * 10 + digit_val(s.last()),
                fv >= 1,
        ;
        assert(v / 10 == fv && v % 10 == digit_val(s.last())) by {
            vstd::arithmetic::div_mod::lemma_fundamental_div_mod_converse(
                v as int,
                10,
                fv as int,
                digit_val(s.last()) as int,
            );
        }
        lemma_digit_roundtrip(s.last());
        assert(digit_char(digit_val(s.last())) == s.last());
        assert(numeral_of(v) =~= s);
    }
}

/// Write `n` in decimal, as the registry's reports and the rule formatter do.
pub fn format_usize(n: usize) -> (r: String)
    ensures
        r@ == numeral_of(n as nat),
        all_digits(r@),
        digits_val(r@) == n,
    decreases n,
{
    proof {
        lemma_numeral_of_sound(n as nat);
        reveal_strlit("0123456789");
    }
    let digits: &str = "0123456789";
    if n < 10 {
        let piece = digits.substring_char(n, n + 1);
        assert(piece@ =~= seq![digit_char(n as nat)]);
        piece.to_owned()
    } else {
        let mut front = format_usize(n / 10);
        let d = n % 10;
        let piece = digits.substring_char(d, d + 1);
        assert(piece@ =~= seq![digit_char((n % 10) as nat)]);
        front.append(piece);
        assert(front@ =~= numeral_of(n as nat));
        front
    }
}

} // verus!
