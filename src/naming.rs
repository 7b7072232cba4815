//! Names of unit files: which files belong to a run, and the sequence number
//! that a unit's name carries.

use vstd::prelude::*;

verus! {

/// Whether `c` is an ASCII decimal digit.
pub open spec fn is_digit(c: char) -> bool {
    '0' <= c && c <= '9'
}

/// The value of the decimal digit `c`.
pub open spec fn digit_value(c: char) -> nat {
    (c as u32 - '0' as u32) as nat
}

/// Whether every character of `s` is a decimal digit.
pub open spec fn all_digits(s: Seq<char>) -> bool {
    forall|i: int| 0 <= i < s.len() ==> #[trigger] is_digit(s[i])
}

/// The number that the decimal digits `s` write, leading zeros allowed.
pub open spec fn decimal_value(s: Seq<char>) -> nat
    decreases s.len(),
{
    if s.len() == 0 {
        0
    } else {
        decimal_value(s.drop_last()) * 10 + digit_value(s.last())
    }
}

/// The digit that writes `d`, for `d` below ten.
pub open spec fn digit_char(d: nat) -> char {
    if d == 0 {
        '0'
    } else if d == 1 {
        '1'
    } else if d == 2 {
        '2'
    } else if d == 3 {
        '3'
    } else if d == 4 {
        '4'
    } else if d == 5 {
        '5'
    } else if d == 6 {
        '6'
    } else if d == 7 {
        '7'
    } else if d == 8 {
        '8'
    } else {
        '9'
    }
}

/// `n` written in decimal, without leading zeros.
pub open spec fn decimal(n: nat) -> Seq<char>
    decreases n,
{
    if n < 10 {
        seq![digit_char(n)]
    } else {
        decimal(n / 10).push(digit_char(n % 10))
    }
}

/// Relies on `usize`'s `Display`, through `ToString::to_string`: the number in
/// decimal without leading zeros.
#[verifier::external_body]
pub(crate) fn decimal_string(n: usize) -> (r: String)
    ensures
        r@ == decimal(n as nat),
{
    n.to_string()
}

/// Whether `name` belongs to the run whose input is called `base`: it is
/// `<base>_<anything><suffix>`, a numbered unit, or `<base><suffix>`, the
/// single unit of a run that does not split its input.
pub open spec fn is_unit_name(name: Seq<char>, base: Seq<char>, suffix: Seq<char>) -> bool {
    ((base + seq!['_']).is_prefix_of(name) && suffix.is_suffix_of(name)) || name == base + suffix
}

/// Whether `digits` is what stands, in `name`, between the last underscore and
/// the closing `suffix`.
pub open spec fn numbered_with(name: Seq<char>, suffix: Seq<char>, digits: Seq<char>) -> bool {
    let stem_len = name.len() - suffix.len();
    &&& suffix.is_suffix_of(name)
    &&& digits.len() > 0
    &&& all_digits(digits)
    &&& stem_len > digits.len()
    &&& name[stem_len - digits.len() - 1] == '_'
    &&& name.subrange(stem_len - digits.len(), stem_len) == digits
}

fn chars_equal_at(a: &str, from: usize, b: &str) -> (r: bool)
    requires
        from + b@.len() <= a@.len(),
        a@.len() <= usize::MAX,
    ensures
        r == (a@.subrange(from as int, from + b@.len()) == b@),
{
    let n = b.unicode_len();
    let mut i: usize = 0;
    while i < n
        invariant
            n == b@.len(),
            from + n <= a@.len(),
            a@.len() <= usize::MAX,
            i <= n,
            forall|j: int| 0 <= j < i ==> a@[from + j] == #[trigger] b@[j],
        decreases n - i,
    {
        if a.get_char(from + i) != b.get_char(i) {
            assert(a@.subrange(from as int, from + b@.len())[i as int] != b@[i as int]);
            return false;
        }
        i = i + 1;
    }
    assert(a@.subrange(from as int, from + b@.len()) =~= b@);
    true
}

/// Whether `name` ends with `suffix`.
pub fn ends_with(name: &str, suffix: &str) -> (r: bool)
    ensures
        r == suffix@.is_suffix_of(name@),
{
    let nl = name.unicode_len();
    let sl = suffix.unicode_len();
    if sl > nl {
        return false;
    }
    chars_equal_at(name, nl - sl, suffix)
}

/// Whether `name` starts with `prefix`.
pub fn starts_with(name: &str, prefix: &str) -> (r: bool)
    ensures
        r == prefix@.is_prefix_of(name@),
{
    let nl = name.unicode_len();
    let pl = prefix.unicode_len();
    if pl > nl {
        return false;
    }
    chars_equal_at(name, 0, prefix)
}

/// Whether the file `name` is a unit of the run whose input is called `base`,
/// the units' names ending in `suffix`.
pub fn unit_name_matches(name: &str, base: &str, suffix: &str) -> (r: bool)
    ensures
        r == is_unit_name(name@, base@, suffix@),
{
    let nl = name.unicode_len();
    let bl = base.unicode_len();
    let sl = suffix.unicode_len();
    let numbered = if bl < nl && chars_equal_at(name, 0, base) && name.get_char(bl) == '_' {
        ends_with(name, suffix)
    } else {
        false
    };
    proof {
        let p = base@ + seq!['_'];
        if p.is_prefix_of(name@) {
            assert(name@.subrange(0, bl as int) =~= p.subrange(0, bl as int));
            assert(p.subrange(0, bl as int) =~= base@);
            assert(name@[bl as int] == p[bl as int]);
        }
        if bl < nl && name@.subrange(0, bl as int) == base@ && name@[bl as int] == '_' {
            assert(name@.subrange(0, p.len() as int) =~= p);
        }
    }
    if numbered {
        return true;
    }
    if sl > nl || nl - sl != bl {
        proof {
            if name@ == base@ + suffix@ {
                assert(name@.len() == base@.len() + suffix@.len());
            }
        }
        return false;
    }
    let r = chars_equal_at(name, 0, base) && chars_equal_at(name, bl, suffix);
    proof {
        if r {
            assert(name@ =~= base@ + suffix@);
        }
        if name@ == base@ + suffix@ {
            assert(name@.subrange(0, bl as int) =~= base@);
            assert(name@.subrange(bl as int, nl as int) =~= suffix@);
        }
    }
    r
}

/// The digits that a name carries as its sequence number are unique.
pub proof fn lemma_numbered_unique(name: Seq<char>, suffix: Seq<char>, d1: Seq<char>, d2: Seq<char>)
    requires
        numbered_with(name, suffix, d1),
        numbered_with(name, suffix, d2),
    ensures
        d1 == d2,
{
    let stem = name.len() - suffix.len();
    if d1.len() < d2.len() {
        let p = stem - d1.len() - 1;
        assert(name[p] == name.subrange(stem - d2.len(), stem)[p - (stem - d2.len())]);
        assert(is_digit(d2[p - (stem - d2.len())]));
    } else if d2.len() < d1.len() {
        let p = stem - d2.len() - 1;
        assert(name[p] == name.subrange(stem - d1.len(), stem)[p - (stem - d1.len())]);
        assert(is_digit(d1[p - (stem - d1.len())]));
    }
}

proof fn lemma_decimal_value_grows(s: Seq<char>, t: Seq<char>)
    ensures
        decimal_value(s) <= decimal_value(s + t),
    decreases t.len(),
{
    if t.len() == 0 {
        assert(s + t =~= s);
    } else {
        lemma_decimal_value_grows(s, t.drop_last());
        assert((s + t).drop_last() =~= s + t.drop_last());
    }
}

/// The sequence number that the unit file `name` carries: the decimal number
/// between the last underscore of the name and the closing `suffix`
/// (`input.c_42<suffix>` carries 42). There is none when the name does not end
/// in `suffix`, when what follows its last underscore is not a non-empty run of
/// digits, or when the number does not fit in `usize`.
pub fn sequence_number(name: &str, suffix: &str) -> (r: Option<usize>)
    ensures
        r matches Some(v) ==> exists|d: Seq<char>| numbered_with(name@, suffix@, d) && decimal_value(d) == v,
        r is None ==> forall|d: Seq<char>| #[trigger] numbered_with(name@, suffix@, d) ==> decimal_value(d) > usize::MAX,
{
    let nl = name.unicode_len();
    let sl = suffix.unicode_len();
    if sl > nl || !chars_equal_at(name, nl - sl, suffix) {
        return None;
    }
    let stem = nl - sl;
    let mut i: usize = stem;
    loop
        invariant
            i <= stem,
            stem == name@.len() - suffix@.len(),
            nl == name@.len(),
            forall|j: int| i <= j < stem ==> #[trigger] is_digit(name@[j]),
        ensures
            i <= stem,
            forall|j: int| i <= j < stem ==> #[trigger] is_digit(name@[j]),
            i == 0 || !is_digit(name@[i - 1]),
        decreases i,
    {
        if i == 0 {
            break;
        }
        let c = name.get_char(i - 1);
        if !('0' <= c && c <= '9') {
            break;
        }
        i = i - 1;
    }
    proof {
        assert forall|d: Seq<char>| #[trigger] numbered_with(name@, suffix@, d) implies d == name@.subrange(
            i as int,
            stem as int,
        ) by {
            let l = d.len();
            if l > stem - i {
                assert(name@[i - 1] == name@.subrange(stem - l, stem as int)[i - 1 - (stem - l)]);
                assert(is_digit(d[i - 1 - (stem - l)]));
            }
            if l < stem - i {
                assert(is_digit(name@[stem - l - 1]));
            }
        }
    }
    if i == stem || i == 0 || name.get_char(i - 1) != '_' {
        return None;
    }
    proof {
        assert(numbered_with(name@, suffix@, name@.subrange(i as int, stem as int)));
    }
    let mut v: usize = 0;
    let mut j: usize = i;
    while j < stem
        invariant
            i <= j <= stem,
            stem <= name@.len(),
            forall|k: int| i <= k < stem ==> #[trigger] is_digit(name@[k]),
            v == decimal_value(name@.subrange(i as int, j as int)),
            numbered_with(name@, suffix@, name@.subrange(i as int, stem as int)),
            forall|d: Seq<char>| #[trigger] numbered_with(name@, suffix@, d) ==> d == name@.subrange(
                i as int,
                stem as int,
            ),
        decreases stem - j,
    {
        let c = name.get_char(j);
        assert(is_digit(name@[j as int]));
        let dg: usize = (c as u32 - '0' as u32) as usize;
        let ghost next = name@.subrange(i as int, j + 1);
        proof {
            assert(next.drop_last() =~= name@.subrange(i as int, j as int));
            assert(decimal_value(next) == v * 10 + dg);
        }
        if v > (usize::MAX - dg) / 10 {
            proof {
                assert(v * 10 + dg > usize::MAX) by (nonlinear_arith)
                    requires v > (usize::MAX - dg) / 10, dg <= 9;
                lemma_decimal_value_grows(next, name@.subrange(j + 1, stem as int));
                assert(next + name@.subrange(j + 1, stem as int) =~= name@.subrange(i as int, stem as int));
            }
            return None;
        }
        proof {
            assert(v * 10 + dg <= usize::MAX) by (nonlinear_arith)
                requires v <= (usize::MAX - dg) / 10, dg <= 9;
        }
        v = v * 10 + dg;
        j = j + 1;
    }
    Some(v)
}

} // verus!
