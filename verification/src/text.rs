//! Decimal numbers in file names.
use vstd::prelude::*;
use vstd::string::StringExecFns;
use crate::framebuffer::{
    digits_value, first_comma_at, is_digit, parse_unsigned, sysfs_values, trim_end, trim_start,
    trimmed, unsigned_digits, SysfsError,
};

verus! {

/// The ASCII character of decimal digit `d`.
pub open spec fn digit_char(d: int) -> char {
    if d == 0 {
        '0'
    } else if d == 1 {
        '1'
    } else if d == 2 {
        '2'
    } else if d == 3 {
        '3'
    } else if d == 4 {
        '4'
    } else if d == 5 {
        '5'
    } else if d == 6 {
        '6'
    } else if d == 7 {
        '7'
    } else if d == 8 {
        '8'
    } else {
        '9'
    }
}

/// The decimal representation of `n`, without sign or leading zeros.
pub open spec fn decimal(n: nat) -> Seq<char>
    decreases n,
{
    if n < 10 {
        seq![digit_char(n as int)]
    } else {
        decimal(n / 10).push(digit_char((n % 10) as int))
    }
}

proof fn lemma_decimal_nonempty(n: nat)
    ensures
        decimal(n).len() >= 1,
        n >= 10 ==> decimal(n).len() >= 2,
    decreases n,
{
    if n >= 10 {
        lemma_decimal_nonempty(n / 10);
    }
}

/// Different numbers have different decimal representations, so the numbered
/// names of different frames differ.
pub proof fn lemma_decimal_injective(a: nat, b: nat)
    requires
        decimal(a) == decimal(b),
    ensures
        a == b,
    decreases a,
{
    lemma_decimal_nonempty(a);
    lemma_decimal_nonempty(b);
    if a < 10 && b < 10 {
        assert(decimal(a)[0] == digit_char(a as int));
        assert(decimal(b)[0] == digit_char(b as int));
    } else if a >= 10 && b >= 10 {
        assert(decimal(a).last() == decimal(b).last());
        assert(decimal(a).last() == digit_char((a % 10) as int));
        assert(decimal(b).last() == digit_char((b % 10) as int));
        assert(decimal(a).drop_last() =~= decimal(a / 10));
        assert(decimal(b).drop_last() =~= decimal(b / 10));
        lemma_decimal_injective(a / 10, b / 10);
        assert(digit_char((a % 10) as int) == digit_char((b % 10) as int));
    }
}

proof fn lemma_digit_char_code(d: int)
    requires
        0 <= d < 10,
    ensures
        digit_char(d) as u32 == 48 + d,
{
    assert('0' as u32 == 48);
    assert('1' as u32 == 49);
    assert('2' as u32 == 50);
    assert('3' as u32 == 51);
    assert('4' as u32 == 52);
    assert('5' as u32 == 53);
    assert('6' as u32 == 54);
    assert('7' as u32 == 55);
    assert('8' as u32 == 56);
    assert('9' as u32 == 57);
}

/// The decimal representation of `n` is made of ASCII digits, has no leading
/// zero, and read back as a number is `n`.
pub proof fn lemma_decimal_reads_back(n: nat)
    ensures
        forall|i: int| 0 <= i < decimal(n).len() ==> #[trigger] is_digit(decimal(n)[i]),
        digits_value(decimal(n)) == n,
        n > 0 ==> decimal(n)[0] != '0',
    decreases n,
{
    if n < 10 {
        lemma_digit_char_code(n as int);
        let d = decimal(n);
        assert(d.drop_last() =~= Seq::<char>::empty());
        assert(digits_value(d) == digits_value(d.drop_last()) * 10 + ((d.last() as u32) - 48) as nat);
        if n > 0 {
            assert('0' as u32 == 48);
        }
    } else {
        lemma_decimal_reads_back(n / 10);
        lemma_digit_char_code((n % 10) as int);
        let d = decimal(n);
        let h = decimal(n / 10);
        assert(d == h.push(digit_char((n % 10) as int)));
        assert(d.drop_last() =~= h);
        assert forall|i: int| 0 <= i < d.len() implies #[trigger] is_digit(d[i]) by {
            if i < h.len() {
                assert(d[i] == h[i]);
            }
        }
        assert(d[0] == h[0]);
        lemma_decimal_nonempty(n / 10);
    }
}

/// A number written in decimal is read back by the same parsing the sysfs
/// numbers get: `str::parse` of `n`'s decimal text gives `n`.
pub proof fn lemma_decimal_parses_back(n: nat, max: nat)
    requires
        n <= max,
    ensures
        parse_unsigned(decimal(n), max) == Some(n),
{
    lemma_decimal_reads_back(n);
    lemma_decimal_nonempty(n);
    let d = decimal(n);
    assert(is_digit(d[0]));
    assert('+' as u32 == 43);
    assert(unsigned_digits(d) == d);
}

proof fn lemma_decimal_untrimmed(n: nat)
    ensures
        trimmed(decimal(n)) == decimal(n),
        !decimal(n).contains(','),
{
    lemma_decimal_reads_back(n);
    lemma_decimal_nonempty(n);
    let d = decimal(n);
    assert(is_digit(d[0]));
    assert(is_digit(d.last()));
    assert(trim_start(d) == d);
    assert(trim_end(d) == d);
    assert(',' as u32 == 44);
    if d.contains(',') {
        let k = choose|k: int| 0 <= k < d.len() && d[k] == ',';
        assert(is_digit(d[k]));
    }
}

/// The sysfs description of a framebuffer reads back as written: depth `d`
/// in `bits_per_pixel` and `w,h` in `virtual_size`, all in decimal, read as
/// depth `d`, width `w` (the number before the comma) and height `h`.
pub proof fn lemma_sysfs_values_read_back(d: u8, w: u16, h: u16)
    ensures
        sysfs_values(decimal(d as nat), decimal(w as nat) + seq![','] + decimal(h as nat)) == Ok::<
            (u8, u16, u16),
            SysfsError,
        >((d, w, h)),
{
    let dd = decimal(d as nat);
    let dw = decimal(w as nat);
    let dh = decimal(h as nat);
    let t = dw + seq![','] + dh;
    lemma_decimal_untrimmed(d as nat);
    lemma_decimal_untrimmed(w as nat);
    lemma_decimal_untrimmed(h as nat);
    lemma_decimal_parses_back(d as nat, 255);
    lemma_decimal_parses_back(w as nat, 65535);
    lemma_decimal_parses_back(h as nat, 65535);
    lemma_decimal_reads_back(w as nat);
    lemma_decimal_reads_back(h as nat);
    lemma_decimal_nonempty(w as nat);
    lemma_decimal_nonempty(h as nat);
    assert(t[0] == dw[0]);
    assert(t.last() == dh.last());
    assert(is_digit(dw[0]));
    assert(is_digit(dh.last()));
    assert(trim_start(t) == t);
    assert(trim_end(t) == t);
    let k = dw.len() as int;
    assert(t[k] == ',');
    assert(t.contains(','));
    assert forall|j: int| 0 <= j < k implies t[j] != ',' by {
        assert(t[j] == dw[j]);
        if t[j] == ',' {
            assert(dw.contains(','));
        }
    }
    assert(first_comma_at(t, k));
    let c = choose|c: int| first_comma_at(t, c);
    assert(c == k) by {
        if c < k {
            assert(t[c] != ',');
        } else if c > k {
            assert(t[k] != ',');
        }
    }
    assert(t.subrange(0, k) =~= dw);
    assert(t.subrange(k + 1, t.len() as int) =~= dh);
}

fn digit_str(d: u64) -> (s: &'static str)
    requires
        d < 10,
    ensures
        s@ == seq![digit_char(d as int)],
{
    if d == 0 {
        proof {
            reveal_strlit("0");
        }
        "0"
    } else if d == 1 {
        proof {
            reveal_strlit("1");
        }
        "1"
    } else if d == 2 {
        proof {
            reveal_strlit("2");
        }
        "2"
    } else if d == 3 {
        proof {
            reveal_strlit("3");
        }
        "3"
    } else if d == 4 {
        proof {
            reveal_strlit("4");
        }
        "4"
    } else if d == 5 {
        proof {
            reveal_strlit("5");
        }
        "5"
    } else if d == 6 {
        proof {
            reveal_strlit("6");
        }
        "6"
    } else if d == 7 {
        proof {
            reveal_strlit("7");
        }
        "7"
    } else if d == 8 {
        proof {
            reveal_strlit("8");
        }
        "8"
    } else {
        proof {
            reveal_strlit("9");
        }
        "9"
    }
}

/// Appends the decimal representation of `n`.
pub fn append_decimal(out: &mut String, n: u64)
    ensures
        final(out)@ == old(out)@ + decimal(n as nat),
    decreases n,
{
    if n >= 10 {
        append_decimal(out, n / 10);
    }
    out.append(digit_str(n % 10));
    proof {
        if n < 10 {
            assert(n % 10 == n);
        }
    }
}

/// `base`, then the decimal representation of `n`, then `suffix`.
pub fn numbered_name(base: &str, n: u64, suffix: &str) -> (name: String)
    ensures
        name@ == base@ + decimal(n as nat) + suffix@,
{
    let mut name = String::new();
    name.append(base);
    append_decimal(&mut name, n);
    name.append(suffix);
    assert(name@ =~= base@ + decimal(n as nat) + suffix@);
    name
}

} // verus!
