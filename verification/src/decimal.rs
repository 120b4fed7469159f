//! Decimal numbers, kept exactly as they are written.

use crate::text::{
    all_digits, char_is_digit, chars_of, digits_value, first_index, is_digit,
    lemma_digits_value_grows, lemma_first_index, lemma_first_index_is, lemma_nat_text_is_number,
    lemma_nat_text_of_digits, nat_text, push_char,
};
use vstd::prelude::*;

verus! {

/// A decimal number in normal form: a sign, the whole part as a number, and
/// the digits that follow the point.
pub struct DecimalView {
    /// The number is below zero.
    pub negative: bool,
    /// The part before the point.
    pub whole: nat,
    /// The digits after the point, without zeros at the end.
    pub fraction: Seq<char>,
}

impl DecimalView {
    /// The number is zero.
    pub open spec fn is_zero(self) -> bool {
        self.whole == 0 && self.fraction.len() == 0
    }

    /// The number is at most the integer `n`.
    pub open spec fn le_int(self, n: nat) -> bool {
        self.negative || self.whole < n || (self.whole == n && self.fraction.len() == 0)
    }

    /// The number as it is written: a `-` if it is below zero, the whole
    /// part, and the fraction behind a point if there is one.
    pub open spec fn text(self) -> Seq<char> {
        let sign = if self.negative {
            seq!['-']
        } else {
            Seq::empty()
        };
        let tail = if self.fraction.len() > 0 {
            seq!['.'] + self.fraction
        } else {
            Seq::empty()
        };
        sign + nat_text(self.whole) + tail
    }

    /// The number with its point moved behind the last digit of the
    /// fraction: the number times ten to the number of fraction digits.
    pub open spec fn scaled(self) -> int {
        let size = self.whole * pow10(self.fraction.len()) + digits_value(self.fraction);
        if self.negative {
            -(size as int)
        } else {
            size as int
        }
    }

    /// The fraction holds digits only and ends in none that is zero, and
    /// zero itself carries no sign.
    pub open spec fn normal(self) -> bool {
        &&& all_digits(self.fraction)
        &&& self.fraction.len() > 0 ==> self.fraction.last() != '0'
        &&& self.negative ==> !self.is_zero()
    }
}

/// Ten to the power of `k`.
pub open spec fn pow10(k: nat) -> nat
    decreases k,
{
    if k == 0 {
        1
    } else {
        10 * pow10((k - 1) as nat)
    }
}

/// `s` without the zeros at its end.
pub open spec fn trim_zeros(s: Seq<char>) -> Seq<char>
    decreases s.len(),
{
    if s.len() > 0 && s.last() == '0' {
        trim_zeros(s.drop_last())
    } else {
        s
    }
}

/// What a decimal field denotes. The field is an optional sign, digits, and
/// optionally a point with more digits; a digit must stand on at least one
/// side of the point. Anything else denotes nothing.
pub open spec fn decimal_value(s: Seq<char>) -> Option<DecimalView> {
    let signed = s.len() > 0 && (s[0] == '+' || s[0] == '-');
    let body = if signed {
        s.drop_first()
    } else {
        s
    };
    let cut = first_index(body, '.');
    let whole = body.take(cut);
    let fraction = if cut < body.len() {
        body.skip(cut + 1)
    } else {
        Seq::empty()
    };
    if all_digits(whole) && all_digits(fraction) && whole.len() + fraction.len() > 0 {
        let kept = trim_zeros(fraction);
        let nonzero = digits_value(whole) > 0 || kept.len() > 0;
        Some(
            DecimalView {
                negative: signed && s[0] == '-' && nonzero,
                whole: digits_value(whole),
                fraction: kept,
            },
        )
    } else {
        None
    }
}

/// Digits that do not start with a zero write a number above zero.
pub proof fn lemma_digits_value_positive(s: Seq<char>)
    requires
        s.len() > 0,
        all_digits(s),
        s[0] != '0',
    ensures
        digits_value(s) > 0,
    decreases s.len(),
{
    if s.len() == 1 {
        assert(s.drop_last().len() == 0);
        assert(is_digit(s[0]));
    } else {
        let front = s.drop_last();
        assert(front[0] == s[0]);
        assert forall|i: int| 0 <= i < front.len() implies is_digit(#[trigger] front[i]) by {
            assert(front[i] == s[i]);
        }
        lemma_digits_value_positive(front);
    }
}

/// As many digits as `k` write a number below ten to the power of `k`.
pub proof fn lemma_digits_value_bound(s: Seq<char>)
    requires
        all_digits(s),
    ensures
        digits_value(s) < pow10(s.len()),
        pow10(s.len()) >= 1,
    decreases s.len(),
{
    if s.len() > 0 {
        let front = s.drop_last();
        assert forall|i: int| 0 <= i < front.len() implies is_digit(#[trigger] front[i]) by {
            assert(front[i] == s[i]);
        }
        lemma_digits_value_bound(front);
        assert(is_digit(s[s.len() - 1]));
    }
}

/// `le_int` and `is_zero` say of a number in normal form what the order
/// of numbers says of it.
pub proof fn lemma_decimal_order(d: DecimalView, n: nat)
    requires
        d.normal(),
    ensures
        d.le_int(n) <==> d.scaled() <= n * pow10(d.fraction.len()),
        d.is_zero() <==> d.scaled() == 0,
{
    let unit = pow10(d.fraction.len()) as int;
    let part = digits_value(d.fraction) as int;
    let whole = d.whole as int;
    let bound = n as int;
    lemma_digits_value_bound(d.fraction);
    if d.fraction.len() > 0 {
        assert(is_digit(d.fraction[d.fraction.len() - 1]));
        assert(part >= 1);
    }
    assert(whole * unit >= 0 && bound * unit >= 0) by (nonlinear_arith)
        requires
            whole >= 0,
            bound >= 0,
            unit >= 1,
    ;
    assert(whole < bound ==> whole * unit + unit <= bound * unit) by (nonlinear_arith)
        requires
            unit >= 1,
    ;
    assert(whole > bound ==> whole * unit >= bound * unit + unit) by (nonlinear_arith)
        requires
            unit >= 1,
    ;
    assert(whole > 0 ==> whole * unit >= 1) by (nonlinear_arith)
        requires
            unit >= 1,
    ;
    assert(d.scaled() == whole * unit + part || d.scaled() == -(whole * unit + part));
    assert(whole == 0 ==> whole * unit == 0) by (nonlinear_arith);
}

/// What is left of digits without the zeros at their end is digits, and
/// does not end in a zero.
pub proof fn lemma_trim_zeros(s: Seq<char>)
    requires
        all_digits(s),
    ensures
        all_digits(trim_zeros(s)),
        trim_zeros(s).len() > 0 ==> trim_zeros(s).last() != '0',
    decreases s.len(),
{
    if s.len() > 0 && s.last() == '0' {
        let front = s.drop_last();
        assert forall|i: int| 0 <= i < front.len() implies is_digit(#[trigger] front[i]) by {
            assert(front[i] == s[i]);
        }
        lemma_trim_zeros(front);
    }
}

/// What a decimal field denotes is a number in normal form.
pub proof fn lemma_decimal_value_is_normal(s: Seq<char>)
    ensures
        decimal_value(s) matches Some(v) ==> v.normal(),
{
    let signed = s.len() > 0 && (s[0] == '+' || s[0] == '-');
    let body = if signed {
        s.drop_first()
    } else {
        s
    };
    let cut = first_index(body, '.');
    let fraction = if cut < body.len() {
        body.skip(cut + 1)
    } else {
        Seq::empty()
    };
    if all_digits(fraction) {
        lemma_trim_zeros(fraction);
    }
}

/// The text of a number in normal form denotes that number.
pub proof fn lemma_text_denotes_the_number(d: DecimalView)
    requires
        d.normal(),
    ensures
        decimal_value(d.text()) == Some(d),
{
    let digits = nat_text(d.whole);
    lemma_nat_text_is_number(d.whole);
    let tail = if d.fraction.len() > 0 {
        seq!['.'] + d.fraction
    } else {
        Seq::<char>::empty()
    };
    let text = d.text();
    let body = digits + tail;
    let cut = digits.len() as int;
    assert(is_digit(digits[0]));
    if d.negative {
        assert(text == seq!['-'] + digits + tail);
        assert(text[0] == '-');
        assert(text.drop_first() =~= body);
    } else {
        assert(text =~= body);
        assert(text[0] == digits[0]);
    }
    assert forall|j: int| 0 <= j < cut implies body[j] != '.' by {
        assert(is_digit(digits[j]));
    }
    lemma_first_index_is(body, '.', cut);
    assert(body.take(cut) =~= digits);
    if d.fraction.len() > 0 {
        assert(body.skip(cut + 1) =~= d.fraction);
    } else {
        assert(d.fraction =~= Seq::<char>::empty());
    }
    let found = decimal_value(text);
    assert(found is Some);
    assert(found->0.fraction == d.fraction);
    assert(found->0 == d);
}

/// Reads the digits of `chars` from `start` up to the first `.` or the
/// end, and says where it stopped. Zeros in front are left out of what it
/// hands back. `None` where something else than a digit stands there.
fn read_whole(chars: &Vec<char>, start: usize) -> (r: Option<(usize, Vec<char>)>)
    requires
        start <= chars.len(),
    ensures
        ({
            let body = chars@.skip(start as int);
            let cut = first_index(body, '.');
            match r {
                Some((stop, whole)) => {
                    &&& stop == start + cut
                    &&& start <= stop <= chars.len()
                    &&& all_digits(body.take(cut))
                    &&& all_digits(whole@)
                    &&& whole@.len() > 0 ==> whole@[0] != '0'
                    &&& digits_value(whole@) == digits_value(body.take(cut))
                },
                None => !all_digits(body.take(cut)),
            }
        }),
{
    let n: usize = chars.len();
    let ghost body = chars@.skip(start as int);
    let mut whole: Vec<char> = Vec::new();
    let mut i: usize = start;
    while i < n && chars[i] != '.'
        invariant
            start <= i <= n,
            n == chars.len(),
            body == chars@.skip(start as int),
            forall|j: int| 0 <= j < i - start ==> body[j] != '.',
            all_digits(body.take(i - start)),
            all_digits(whole@),
            whole@.len() > 0 ==> whole@[0] != '0',
            digits_value(whole@) == digits_value(body.take(i - start)),
        decreases n - i,
    {
        let c: char = chars[i];
        assert(body[i - start] == c);
        let ghost before = body.take(i - start);
        let ghost after = body.take(i - start + 1);
        assert(after.drop_last() == before);
        if !char_is_digit(c) {
            proof {
                lemma_first_index(body, '.');
                let cut = first_index(body, '.');
                if cut <= i - start {
                    assert(body[cut] == '.');
                }
                assert(body.take(cut)[i - start] == c);
            }
            return None;
        }
        assert forall|j: int| 0 <= j < after.len() implies is_digit(#[trigger] after[j]) by {
            if j < before.len() {
                assert(before[j] == after[j]);
            }
        }
        if whole.len() > 0 || c != '0' {
            let ghost old_whole = whole@;
            whole.push(c);
            assert(whole@.drop_last() == old_whole);
            assert forall|j: int| 0 <= j < whole@.len() implies is_digit(#[trigger] whole@[j]) by {
                if j < old_whole.len() {
                    assert(old_whole[j] == whole@[j]);
                }
            }
        }
        i = i + 1;
    }
    proof {
        lemma_first_index_is(body, '.', i - start);
    }
    Some((i, whole))
}

/// Reads the digits of `chars` from `from` to the end, and leaves out the
/// zeros at the end. `None` where something else than a digit stands
/// there.
fn read_fraction(chars: &Vec<char>, from: usize) -> (r: Option<Vec<char>>)
    requires
        from <= chars.len(),
    ensures
        match r {
            Some(fraction) => {
                &&& all_digits(chars@.skip(from as int))
                &&& fraction@ == trim_zeros(chars@.skip(from as int))
                &&& all_digits(fraction@)
                &&& fraction@.len() > 0 ==> fraction@.last() != '0'
            },
            None => !all_digits(chars@.skip(from as int)),
        },
{
    let n: usize = chars.len();
    let ghost tail = chars@.skip(from as int);
    let mut fraction: Vec<char> = Vec::new();
    let mut i: usize = from;
    while i < n
        invariant
            from <= i <= n,
            n == chars.len(),
            tail == chars@.skip(from as int),
            fraction@ == tail.take(i - from),
            all_digits(fraction@),
        decreases n - i,
    {
        let c: char = chars[i];
        assert(tail[i - from] == c);
        if !char_is_digit(c) {
            return None;
        }
        let ghost old_fraction = fraction@;
        fraction.push(c);
        assert(fraction@ == tail.take(i - from + 1));
        assert forall|j: int| 0 <= j < fraction@.len() implies is_digit(
            #[trigger] fraction@[j],
        ) by {
            if j < old_fraction.len() {
                assert(old_fraction[j] == fraction@[j]);
            }
        }
        i = i + 1;
    }
    assert(fraction@ == tail);
    while fraction.len() > 0 && fraction[fraction.len() - 1] == '0'
        invariant
            all_digits(fraction@),
            trim_zeros(fraction@) == trim_zeros(tail),
        decreases fraction.len(),
    {
        let ghost longer = fraction@;
        fraction.pop();
        assert(fraction@ == longer.drop_last());
        assert forall|j: int| 0 <= j < fraction@.len() implies is_digit(
            #[trigger] fraction@[j],
        ) by {
            assert(longer[j] == fraction@[j]);
        }
    }
    Some(fraction)
}

/// A decimal number, exact to the last digit written.
#[derive(Debug)]
pub struct Decimal {
    negative: bool,
    whole: Vec<char>,
    fraction: Vec<char>,
}

impl View for Decimal {
    type V = DecimalView;

    closed spec fn view(&self) -> DecimalView {
        DecimalView {
            negative: self.negative,
            whole: digits_value(self.whole@),
            fraction: self.fraction@,
        }
    }
}

impl DeepView for Decimal {
    type V = DecimalView;

    open spec fn deep_view(&self) -> DecimalView {
        self@
    }
}

impl Clone for Decimal {
    fn clone(&self) -> (res: Self)
        ensures
            res@ == self@,
    {
        proof {
            use_type_invariant(self);
        }
        let res = Decimal {
            negative: self.negative,
            whole: self.whole.clone(),
            fraction: self.fraction.clone(),
        };
        assert(res.whole@ =~= self.whole@);
        assert(res.fraction@ =~= self.fraction@);
        res
    }
}

impl Decimal {
    #[verifier::type_invariant]
    spec fn well_formed(self) -> bool {
        &&& all_digits(self.whole@)
        &&& self.whole@.len() > 0 ==> self.whole@[0] != '0'
        &&& all_digits(self.fraction@)
        &&& self.fraction@.len() > 0 ==> self.fraction@.last() != '0'
        &&& self.negative ==> self.whole@.len() > 0 || self.fraction@.len() > 0
    }

    /// Reads a decimal from its characters.
    pub fn from_chars(chars: &Vec<char>) -> (r: Option<Decimal>)
        ensures
            match decimal_value(chars@) {
                Some(v) => r matches Some(d) && d@ == v,
                None => r is None,
            },
            r matches Some(d) ==> d@.normal(),
    {
        let n: usize = chars.len();
        let signed: bool = n > 0 && (chars[0] == '+' || chars[0] == '-');
        let start: usize = if signed {
            1
        } else {
            0
        };
        let ghost body = chars@.skip(start as int);
        assert(body == if signed {
            chars@.drop_first()
        } else {
            chars@
        });
        let (stop, whole) = match read_whole(chars, start) {
            Some(found) => found,
            None => {
                return None;
            },
        };
        let ghost cut: int = stop - start;
        let fraction = if stop < n {
            assert(body.skip(cut + 1) == chars@.skip(stop + 1));
            match read_fraction(chars, stop + 1) {
                Some(digits) => digits,
                None => {
                    return None;
                },
            }
        } else {
            assert(trim_zeros(Seq::<char>::empty()) == Seq::<char>::empty());
            Vec::new()
        };
        let whole_digits: usize = stop - start;
        let fraction_digits: usize = if stop < n {
            n - stop - 1
        } else {
            0
        };
        if whole_digits == 0 && fraction_digits == 0 {
            return None;
        }
        let nonzero: bool = whole.len() > 0 || fraction.len() > 0;
        proof {
            if whole@.len() > 0 {
                lemma_digits_value_positive(whole@);
            }
        }
        let negative: bool = signed && chars[0] == '-' && nonzero;
        Some(Decimal { negative, whole, fraction })
    }

    /// Reads a decimal field.
    pub fn parse(s: &str) -> (r: Option<Decimal>)
        ensures
            match decimal_value(s@) {
                Some(v) => r matches Some(d) && d@ == v,
                None => r is None,
            },
            r matches Some(d) ==> d@.normal(),
    {
        let chars = chars_of(s);
        Decimal::from_chars(&chars)
    }

    /// Writes the number.
    pub fn text(&self) -> (s: String)
        ensures
            s@ == self@.text(),
    {
        proof {
            use_type_invariant(self);
        }
        let mut s = String::new();
        if self.negative {
            push_char(&mut s, '-');
        }
        let ghost sign = s@;
        if self.whole.len() == 0 {
            push_char(&mut s, '0');
            assert(nat_text(0) == seq!['0']);
        } else {
            let mut i: usize = 0;
            while i < self.whole.len()
                invariant
                    i <= self.whole.len(),
                    s@ == sign + self.whole@.take(i as int),
                decreases self.whole.len() - i,
            {
                push_char(&mut s, self.whole[i]);
                assert(self.whole@.take(i + 1) == self.whole@.take(i as int).push(
                    self.whole@[i as int],
                ));
                i = i + 1;
            }
            assert(self.whole@.take(i as int) == self.whole@);
            proof {
                lemma_nat_text_of_digits(self.whole@);
            }
        }
        let ghost front = s@;
        assert(front == sign + nat_text(self@.whole));
        if self.fraction.len() > 0 {
            push_char(&mut s, '.');
            let mut i: usize = 0;
            while i < self.fraction.len()
                invariant
                    i <= self.fraction.len(),
                    s@ == front + (seq!['.'] + self.fraction@.take(i as int)),
                decreases self.fraction.len() - i,
            {
                push_char(&mut s, self.fraction[i]);
                assert(self.fraction@.take(i + 1) == self.fraction@.take(i as int).push(
                    self.fraction@[i as int],
                ));
                i = i + 1;
            }
            assert(self.fraction@.take(i as int) == self.fraction@);
        }
        s
    }

    /// Whether the number is zero.
    pub fn is_zero(&self) -> (r: bool)
        ensures
            r == self@.is_zero(),
    {
        proof {
            use_type_invariant(self);
            if self.whole@.len() > 0 {
                lemma_digits_value_positive(self.whole@);
            }
        }
        self.whole.len() == 0 && self.fraction.len() == 0
    }

    /// Whether the number is at most `n`.
    pub fn le_int(&self, n: u32) -> (r: bool)
        ensures
            r == self@.le_int(n as nat),
    {
        proof {
            use_type_invariant(self);
        }
        if self.negative {
            return true;
        }
        let mut acc: u64 = 0;
        let mut i: usize = 0;
        while i < self.whole.len()
            invariant
                i <= self.whole.len(),
                !self.negative,
                all_digits(self.whole@),
                acc == digits_value(self.whole@.take(i as int)),
                acc <= n,
            decreases self.whole.len() - i,
        {
            let c: char = self.whole[i];
            assert(is_digit(self.whole@[i as int]));
            let next: u64 = acc * 10 + (c as u32 - '0' as u32) as u64;
            proof {
                assert(self.whole@.take(i + 1).drop_last() == self.whole@.take(i as int));
            }
            if next > n as u64 {
                proof {
                    lemma_digits_value_grows(self.whole@, i + 1);
                }
                return false;
            }
            acc = next;
            i = i + 1;
        }
        assert(self.whole@.take(i as int) == self.whole@);
        acc < n as u64 || self.fraction.len() == 0
    }
}

} // verus!
