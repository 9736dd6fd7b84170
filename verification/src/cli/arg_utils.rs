//! Small parsers over command-line words: the base name of a path, the
//! program-name test, numbers with size suffixes and `--option=value` words.
//! All of them work on the characters of a string.

use vstd::prelude::*;
use vstd::string::StrSliceExecFns;

verus! {

/// A path separator, Unix or Windows style.
pub open spec fn is_path_sep(c: char) -> bool {
    c == '/' || c == '\\'
}

/// Index just past the last separator of `s`, or 0 when `s` has none.
pub open spec fn name_start(s: Seq<char>) -> int
    decreases s.len(),
{
    if s.len() == 0 {
        0
    } else if is_path_sep(s.last()) {
        s.len() as int
    } else {
        name_start(s.drop_last())
    }
}

proof fn lemma_name_start_bounds(s: Seq<char>)
    ensures
        0 <= name_start(s) <= s.len(),
    decreases s.len(),
{
    if s.len() > 0 {
        lemma_name_start_bounds(s.drop_last());
    }
}

/// The last component of `path`, after its last `/` or `\`.
pub fn last_name_from_path(path: &str) -> (r: &str)
    ensures
        r@ == path@.subrange(name_start(path@), path@.len() as int),
{
    let n = path.unicode_len();
    let mut start: usize = 0;
    let mut i: usize = 0;
    while i < n
        invariant
            n == path@.len(),
            i <= n,
            start <= i,
            start as int == name_start(path@.subrange(0, i as int)),
        decreases n - i,
    {
        let c = path.get_char(i);
        assert(path@.subrange(0, i + 1).drop_last() =~= path@.subrange(0, i as int));
        if c == '/' || c == '\\' {
            start = i + 1;
        }
        i += 1;
    }
    assert(path@.subrange(0, n as int) =~= path@);
    path.substring_char(start, n)
}

/// `exe` names the program `name`: it is `name`, possibly followed by an
/// extension that starts with a dot.
pub open spec fn exe_name_matches(exe: Seq<char>, name: Seq<char>) -> bool {
    &&& name.is_prefix_of(exe)
    &&& (exe.len() == name.len() || exe[name.len() as int] == '.')
}

/// Whether the program name `exe_path` is `name`, ignoring an extension.
pub fn exe_name_match(exe_path: &str, name: &str) -> (r: bool)
    ensures
        r == exe_name_matches(exe_path@, name@),
{
    let e = exe_path.unicode_len();
    let n = name.unicode_len();
    if n > e {
        return false;
    }
    let mut i: usize = 0;
    while i < n
        invariant
            e == exe_path@.len(),
            n == name@.len(),
            n <= e,
            i <= n,
            forall|j: int| 0 <= j < i ==> exe_path@[j] == name@[j],
        decreases n - i,
    {
        if exe_path.get_char(i) != name.get_char(i) {
            assert(exe_path@.subrange(0, n as int)[i as int] != name@[i as int]);
            return false;
        }
        i += 1;
    }
    assert(name@ =~= exe_path@.subrange(0, n as int));
    n == e || exe_path.get_char(n) == '.'
}

/// An ASCII decimal digit.
pub open spec fn is_digit(c: char) -> bool {
    '0' <= c && c <= '9'
}

/// Value of a decimal digit.
pub open spec fn digit_value(c: char) -> nat {
    (c as int - '0' as int) as nat
}

/// Number of decimal digits at the start of `s`.
pub open spec fn digit_run(s: Seq<char>) -> nat
    decreases s.len(),
{
    if s.len() > 0 && is_digit(s[0]) {
        1 + digit_run(s.drop_first())
    } else {
        0
    }
}

/// Value of the decimal numeral `s` (all of its characters are digits).
pub open spec fn decimal_value(s: Seq<char>) -> nat
    decreases s.len(),
{
    if s.len() == 0 {
        0
    } else {
        decimal_value(s.drop_last()) * 10 + digit_value(s.last())
    }
}

/// Multiplier of a size unit letter: `K`, `M` or `G`, else 1.
pub open spec fn unit_scale(c: char) -> nat {
    if c == 'K' {
        1024
    } else if c == 'M' {
        1048576
    } else if c == 'G' {
        1073741824
    } else {
        1
    }
}

/// A size unit letter.
pub open spec fn is_unit(c: char) -> bool {
    c == 'K' || c == 'M' || c == 'G'
}

/// Index just past the unit suffix that starts at `d` (`K`, `Ki`, `KB`,
/// `KiB`, and the same with `M` and `G`), or `d` when none starts there.
pub open spec fn suffix_end(s: Seq<char>, d: int) -> int {
    if d < s.len() && is_unit(s[d]) {
        let a = d + 1;
        let b = if a < s.len() && s[a] == 'i' { a + 1 } else { a };
        if b < s.len() && s[b] == 'B' { b + 1 } else { b }
    } else {
        d
    }
}

/// The multiplier that the unit at `d` selects (1 when there is none).
pub open spec fn suffix_scale(s: Seq<char>, d: int) -> nat {
    if d < s.len() { unit_scale(s[d]) } else { 1 }
}

/// The number that `s` starts with, times its unit, modulo 2^32.
#[verifier::opaque]
pub open spec fn leading_u32(s: Seq<char>) -> u32 {
    let d = digit_run(s) as int;
    ((decimal_value(s.subrange(0, d)) * suffix_scale(s, d)) % 0x1_0000_0000) as u32
}

proof fn lemma_digit_run(s: Seq<char>, i: int)
    requires
        0 <= i <= s.len(),
        forall|j: int| 0 <= j < i ==> is_digit(s[j]),
        i == s.len() || !is_digit(s[i]),
    ensures
        digit_run(s) == i,
    decreases i,
{
    if i > 0 {
        let t = s.drop_first();
        assert forall|j: int| 0 <= j < i - 1 implies is_digit(t[j]) by {
            assert(t[j] == s[j + 1]);
        }
        if i - 1 < t.len() {
            assert(t[i - 1] == s[i]);
        }
        lemma_digit_run(t, i - 1);
    }
}

/// The digits at the start of a word, with their unit, fit in the word.
pub proof fn lemma_digit_run_bounds(s: Seq<char>)
    ensures
        digit_run(s) <= suffix_end(s, digit_run(s) as int) <= s.len(),
    decreases s.len(),
{
    if s.len() > 0 && is_digit(s[0]) {
        lemma_digit_run_bounds(s.drop_first());
    }
}

proof fn lemma_wrap_step(v: nat, r: u32, d: nat)
    requires
        r as nat == v % 0x1_0000_0000,
        d < 10,
    ensures
        ((r as nat * 10) % 0x1_0000_0000 + d) % 0x1_0000_0000 == (v * 10 + d) % 0x1_0000_0000,
{
    vstd::arithmetic::div_mod::lemma_mul_mod_noop_left(v as int, 10, 0x1_0000_0000);
    vstd::arithmetic::div_mod::lemma_add_mod_noop((v * 10) as int, d as int, 0x1_0000_0000);
    vstd::arithmetic::div_mod::lemma_add_mod_noop(
        ((r as nat * 10) % 0x1_0000_0000) as int, d as int, 0x1_0000_0000);
    vstd::arithmetic::div_mod::lemma_mod_twice((v * 10) as int, 0x1_0000_0000);
    vstd::arithmetic::div_mod::lemma_small_mod(d, 0x1_0000_0000);
}

proof fn lemma_wrap_scale(v: nat, r: u32, k: nat)
    requires
        r as nat == v % 0x1_0000_0000,
    ensures
        (r as nat * k) % 0x1_0000_0000 == (v * k) % 0x1_0000_0000,
{
    vstd::arithmetic::div_mod::lemma_mul_mod_noop_left(v as int, k as int, 0x1_0000_0000);
}

/// Reads the unsigned number at the start of `s`, with an optional unit
/// (`K`, `M`, `G`, each optionally followed by `i` and then `B`) that
/// multiplies it by 2^10, 2^20 or 2^30. Arithmetic wraps modulo 2^32.
/// `None` when `s` does not start with a digit; otherwise the value and the
/// rest of `s` after the number and its unit.
pub fn read_u32_from_str(s: &str) -> (r: Option<(u32, &str)>)
    ensures
        match r {
            None => digit_run(s@) == 0,
            Some((v, rest)) => {
                &&& digit_run(s@) > 0
                &&& v == leading_u32(s@)
                &&& rest@ == s@.subrange(suffix_end(s@, digit_run(s@) as int), s@.len() as int)
            },
        },
{
    proof { reveal(leading_u32); }
    let n = s.unicode_len();
    if n == 0 || !('0' <= s.get_char(0) && s.get_char(0) <= '9') {
        return None;
    }
    let mut result: u32 = 0;
    let mut i: usize = 0;
    while i < n
        invariant_except_break
            n == s@.len(),
            n > 0,
            is_digit(s@[0]),
            i <= n,
            forall|j: int| 0 <= j < i ==> is_digit(s@[j]),
            result as nat == decimal_value(s@.subrange(0, i as int)) % 0x1_0000_0000,
        ensures
            n == s@.len(),
            0 < i <= n,
            forall|j: int| 0 <= j < i ==> is_digit(s@[j]),
            i == n || !is_digit(s@[i as int]),
            result as nat == decimal_value(s@.subrange(0, i as int)) % 0x1_0000_0000,
        decreases n - i,
    {
        let c = s.get_char(i);
        if !('0' <= c && c <= '9') {
            break;
        }
        let d: u32 = (c as u32) - ('0' as u32);
        proof {
            let p = s@.subrange(0, i as int + 1);
            assert(p.drop_last() =~= s@.subrange(0, i as int));
            assert(p.last() == c);
            lemma_wrap_step(decimal_value(s@.subrange(0, i as int)), result, d as nat);
        }
        result = result.wrapping_mul(10).wrapping_add(d);
        i += 1;
    }
    proof {
        lemma_digit_run(s@, i as int);
    }
    let digits = i;
    if i < n {
        let u = s.get_char(i);
        if u == 'K' || u == 'M' || u == 'G' {
            let scale: u32 = if u == 'K' { 1024 } else if u == 'M' { 1048576 } else { 1073741824 };
            proof {
                lemma_wrap_scale(decimal_value(s@.subrange(0, i as int)), result, scale as nat);
            }
            result = result.wrapping_mul(scale);
            assert(suffix_scale(s@, digits as int) == scale as nat);
            assert(result == leading_u32(s@));
            i += 1;
            if i < n && s.get_char(i) == 'i' {
                i += 1;
            }
            if i < n && s.get_char(i) == 'B' {
                i += 1;
            }
        } else {
            assert(suffix_scale(s@, digits as int) == 1);
            assert(result == leading_u32(s@));
        }
    } else {
        assert(suffix_scale(s@, digits as int) == 1);
        assert(result == leading_u32(s@));
    }
    assert(i as int == suffix_end(s@, digits as int));
    assert(digit_run(s@) == digits);
    assert(result == leading_u32(s@));
    Some((result, s.substring_char(i, n)))
}

/// `Some(rest)` when `arg` starts with `prefix`, `rest` being what follows
/// it; `None` otherwise.
pub fn long_command_w_arg<'a>(arg: &'a str, prefix: &str) -> (r: Option<&'a str>)
    ensures
        match r {
            Some(rest) => prefix@.is_prefix_of(arg@)
                && rest@ == arg@.subrange(prefix@.len() as int, arg@.len() as int),
            None => !prefix@.is_prefix_of(arg@),
        },
{
    let a = arg.unicode_len();
    let p = prefix.unicode_len();
    if p > a {
        return None;
    }
    let mut i: usize = 0;
    while i < p
        invariant
            a == arg@.len(),
            p == prefix@.len(),
            p <= a,
            i <= p,
            forall|j: int| 0 <= j < i ==> arg@[j] == prefix@[j],
        decreases p - i,
    {
        if arg.get_char(i) != prefix.get_char(i) {
            assert(arg@.subrange(0, p as int)[i as int] != prefix@[i as int]);
            return None;
        }
        i += 1;
    }
    assert(prefix@ =~= arg@.subrange(0, p as int));
    Some(arg.substring_char(p, a))
}

/// Whether two strings hold the same characters.
pub fn str_eq(a: &str, b: &str) -> (r: bool)
    ensures
        r == (a@ == b@),
{
    let n = a.unicode_len();
    if n != b.unicode_len() {
        return false;
    }
    let mut i: usize = 0;
    while i < n
        invariant
            n == a@.len(),
            n == b@.len(),
            i <= n,
            forall|j: int| 0 <= j < i ==> a@[j] == b@[j],
        decreases n - i,
    {
        if a.get_char(i) != b.get_char(i) {
            return false;
        }
        i += 1;
    }
    assert(a@ =~= b@);
    true
}

/// The characters of `s`.
pub fn chars_of(s: &str) -> (v: Vec<char>)
    ensures
        v@ == s@,
{
    let n = s.unicode_len();
    let mut v: Vec<char> = Vec::new();
    let mut i: usize = 0;
    while i < n
        invariant
            n == s@.len(),
            i <= n,
            v@ == s@.subrange(0, i as int),
        decreases n - i,
    {
        v.push(s.get_char(i));
        i += 1;
        assert(v@ =~= s@.subrange(0, i as int));
    }
    assert(s@.subrange(0, n as int) =~= s@);
    v
}

} // verus!
