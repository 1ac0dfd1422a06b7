use vstd::prelude::*;
use vstd::string::StringExecFns;

verus! {

/// The character of the decimal digit `d`.
pub open spec fn digit_char(d: nat) -> char {
    (48 + d) as char
}

/// The decimal digits of `n`, most significant first.
pub open spec fn decimal(n: nat) -> Seq<char>
    decreases n,
{
    if n < 10 {
        seq![digit_char(n)]
    } else {
        decimal(n / 10).push(digit_char(n % 10))
    }
}

/// How a key is written: `#`, the index, `v`, the generation.
pub open spec fn key_text(key: (usize, u32)) -> Seq<char> {
    seq!['#'] + decimal(key.0 as nat) + seq!['v'] + decimal(key.1 as nat)
}

/// Whether `c` is one of the characters `0` to `9`.
pub open spec fn is_digit(c: char) -> bool {
    48 <= (c as u32) <= 57
}

/// The number that a digit character stands for.
pub open spec fn digit_value(c: char) -> nat {
    ((c as u32) - 48) as nat
}

/// The number that a string of digits reads as, most significant first.
pub open spec fn digits_value(s: Seq<char>) -> nat
    decreases s.len(),
{
    if s.len() == 0 {
        0
    } else {
        10 * digits_value(s.drop_last()) + digit_value(s.last())
    }
}

/// A standard base-10 numeral: at least one character, all digits, and no
/// leading zero unless the numeral is `0` itself.
pub open spec fn is_numeral(s: Seq<char>) -> bool {
    &&& s.len() >= 1
    &&& forall|i: int| 0 <= i < s.len() ==> is_digit(#[trigger] s[i])
    &&& (s[0] == '0' ==> s.len() == 1)
}

/// A numeral whose first digit is not zero stands for at least 1.
proof fn lemma_numeral_positive(s: Seq<char>)
    requires
        is_numeral(s),
        s[0] != '0',
    ensures
        digits_value(s) >= 1,
    decreases s.len(),
{
    if s.len() > 1 {
        let init = s.drop_last();
        assert(init[0] == s[0]);
        assert forall|i: int| 0 <= i < init.len() implies is_digit(#[trigger] init[i]) by {
            assert(init[i] == s[i]);
        }
        lemma_numeral_positive(init);
        assert(digits_value(s) == 10 * digits_value(init) + digit_value(s.last()));
    } else {
        assert(s.drop_last().len() == 0);
        assert(s.last() == s[0]);
        assert(is_digit(s[0]));
        lemma_digit_roundtrip(s[0]);
        assert(digits_value(s.drop_last()) == 0);
        assert(digits_value(s) == 10 * digits_value(s.drop_last()) + digit_value(s.last()));
    }
}

/// A digit is the digit character of the number it stands for.
proof fn lemma_digit_roundtrip(c: char)
    requires
        is_digit(c),
    ensures
        digit_value(c) < 10,
        digit_char(digit_value(c)) == c,
        (c == '0') == (digit_value(c) == 0),
{
    let v = c as u32;
    assert(((v as int) as char) == c);
    assert(('0' as u32) == 48);
    if v == 48 {
        assert(c == '0');
    }
}

/// The digit character of `d` is a digit that stands for `d`.
proof fn lemma_digit_char(d: nat)
    requires
        d < 10,
    ensures
        is_digit(digit_char(d)),
        digit_value(digit_char(d)) == d,
        (digit_char(d) == '0') == (d == 0),
{
    assert(((48 + d) as char) as u32 == 48 + d);
}

/// `decimal(n)` is the standard base-10 numeral of `n`: all digits, no
/// leading zero unless `n` is 0, and it reads back as `n`.
pub proof fn law_decimal_reads_back(n: nat)
    ensures
        is_numeral(decimal(n)),
        digits_value(decimal(n)) == n,
    decreases n,
{
    if n >= 10 {
        law_decimal_reads_back(n / 10);
        let d = decimal(n);
        let init = decimal(n / 10);
        lemma_digit_char(n % 10);
        assert(d.drop_last() =~= init);
        assert(d.last() == digit_char(n % 10));
        assert(digits_value(d) == 10 * digits_value(init) + digit_value(d.last()));
        assert(n == 10 * (n / 10) + n % 10);
        assert forall|i: int| 0 <= i < d.len() implies is_digit(#[trigger] d[i]) by {
            if i < init.len() {
                assert(d[i] == init[i]);
            }
        }
        assert(d[0] == init[0]);
        if init[0] == '0' {
            assert(init.len() == 1);
            assert(digits_value(init) == 10 * digits_value(init.drop_last()) + digit_value(init.last()));
            assert(init.drop_last().len() == 0);
            assert(init.last() == init[0]);
            assert((init[0] as u32) == 48);
        }
    } else {
        lemma_digit_char(n);
        let d = decimal(n);
        assert(d.drop_last().len() == 0);
        assert(d.last() == digit_char(n));
        assert(digits_value(d) == 10 * digits_value(d.drop_last()) + digit_value(d.last()));
    }
}

/// A numeral that reads as `n` is `decimal(n)`: no other string is the
/// standard base-10 numeral of `n`.
pub proof fn law_decimal_is_unique(n: nat, s: Seq<char>)
    requires
        is_numeral(s),
        digits_value(s) == n,
    ensures
        s == decimal(n),
    decreases s.len(),
{
    let last = s.last();
    assert(is_digit(s[s.len() - 1]));
    assert(digits_value(s) == 10 * digits_value(s.drop_last()) + digit_value(last));
    lemma_digit_roundtrip(last);
    if s.len() == 1 {
        assert(s.drop_last().len() == 0);
        assert(last == s[0]);
        assert(digit_char(n) == last);
        assert(s =~= seq![digit_char(n)]);
    } else {
        let init = s.drop_last();
        assert(init[0] == s[0]);
        assert forall|i: int| 0 <= i < init.len() implies is_digit(#[trigger] init[i]) by {
            assert(init[i] == s[i]);
        }
        assert(s[0] != '0');
        lemma_numeral_positive(init);
        assert(n / 10 == digits_value(init) && n % 10 == digit_value(last)) by (nonlinear_arith)
            requires
                n == 10 * digits_value(init) + digit_value(last),
                digit_value(last) < 10,
        ;
        law_decimal_is_unique(n / 10, init);
        assert(digit_char(n % 10) == last);
        assert(n >= 10);
        assert(s =~= decimal(n / 10).push(digit_char(n % 10)));
    }
}

/// The text of a key reads back as the key: `#`, a numeral, `v`, a numeral,
/// splits that way exactly when the two numerals read as the key's index and
/// generation.
pub proof fn law_key_text_reads_back(key: (usize, u32), a: Seq<char>, b: Seq<char>)
    requires
        is_numeral(a),
        is_numeral(b),
    ensures
        key_text(key) == seq!['#'] + a + seq!['v'] + b <==> (digits_value(a) == key.0
            && digits_value(b) == key.1),
{
    let t = key_text(key);
    let da = decimal(key.0 as nat);
    let db = decimal(key.1 as nat);
    law_decimal_reads_back(key.0 as nat);
    law_decimal_reads_back(key.1 as nat);
    let u = seq!['#'] + a + seq!['v'] + b;
    if digits_value(a) == key.0 && digits_value(b) == key.1 {
        law_decimal_is_unique(key.0 as nat, a);
        law_decimal_is_unique(key.1 as nat, b);
    }
    if t == u {
        // The only `v` of each text follows the index, so the index numerals
        // have the same length.
        assert(t[da.len() as int + 1] == 'v');
        assert(u[a.len() as int + 1] == 'v');
        if a.len() < da.len() {
            assert(t[a.len() as int + 1] == da[a.len() as int]);
            assert(is_digit(da[a.len() as int]));
        } else if a.len() > da.len() {
            assert(u[da.len() as int + 1] == a[da.len() as int]);
            assert(is_digit(a[da.len() as int]));
        }
        assert(a =~= t.subrange(1, a.len() as int + 1));
        assert(da =~= t.subrange(1, da.len() as int + 1));
        assert(b =~= u.subrange(a.len() as int + 2, u.len() as int));
        assert(db =~= t.subrange(da.len() as int + 2, t.len() as int));
    }
}

/// The one-character string of the decimal digit `d`.
fn digit_str(d: u64) -> (s: &'static str)
    requires
        d < 10,
    ensures
        s@ == seq![digit_char(d as nat)],
{
    proof {
        reveal_strlit("0");
        reveal_strlit("1");
        reveal_strlit("2");
        reveal_strlit("3");
        reveal_strlit("4");
        reveal_strlit("5");
        reveal_strlit("6");
        reveal_strlit("7");
        reveal_strlit("8");
        reveal_strlit("9");
    }
    match d {
        0 => "0",
        1 => "1",
        2 => "2",
        3 => "3",
        4 => "4",
        5 => "5",
        6 => "6",
        7 => "7",
        8 => "8",
        _ => "9",
    }
}

/// Appends the decimal digits of `n` to `out`.
fn push_decimal(out: &mut String, n: u64)
    ensures
        final(out)@ == old(out)@ + decimal(n as nat),
    decreases n,
{
    if n >= 10 {
        push_decimal(out, n / 10);
    }
    out.append(digit_str(n % 10));
    proof {
        if n >= 10 {
            assert(final(out)@ =~= old(out)@ + decimal(n as nat));
        }
    }
}

/// A stable, generational key into a [`crate::SparseMap`].
///
/// A `Key` names a slot by its **index** and by the **generation** that the
/// slot had when the key was handed out. A slot's generation is bumped every
/// time the slot is reused and every time `clear` or `drain` frees it, so a
/// key whose generation no longer matches its slot refers to nothing.
#[derive(Debug, Clone, Copy, Hash, PartialEq, Eq, PartialOrd, Ord)]
pub struct Key {
    index: usize,
    generation: u32,
}

impl View for Key {
    type V = (usize, u32);

    /// A key is modelled by its pair (index, generation).
    closed spec fn view(&self) -> (usize, u32) {
        (self.index, self.generation)
    }
}

impl Key {
    /// A sentinel key that will never refer to a live value: no map can
    /// hold `usize::MAX` slots, so its index is never in range.
    pub fn placeholder() -> (key: Key)
        ensures
            key@ == (usize::MAX, u32::MAX),
    {
        Key { index: usize::MAX, generation: u32::MAX }
    }

    /// Builds the key of slot `index` at generation `generation`.
    pub fn new(index: usize, generation: u32) -> (key: Key)
        ensures
            key@ == (index, generation),
    {
        Key { index, generation }
    }

    /// The slot that this key names.
    pub fn index(&self) -> (index: usize)
        ensures
            index == self@.0,
    {
        self.index
    }

    /// The key written as `#<index>v<generation>`, for instance `#3v1`.
    pub fn to_string(&self) -> (text: String)
        ensures
            text@ == key_text(self@),
    {
        proof {
            reveal_strlit("#");
            reveal_strlit("v");
        }
        let mut text = String::from_str("#");
        push_decimal(&mut text, self.index as u64);
        text.append("v");
        push_decimal(&mut text, self.generation as u64);
        text
    }

    /// The generation that the slot must still have for this key to be valid.
    pub fn generation(&self) -> (generation: u32)
        ensures
            generation == self@.1,
    {
        self.generation
    }
}

} // verus!
