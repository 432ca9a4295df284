use vstd::prelude::*;

use crate::path::{display_spec, join_spec, SegPath};

verus! {

/// How many characters of a styled string are visible: characters inside
/// an ANSI escape run, from its escape character up to the closing `m`,
/// take no space on the terminal.
pub open spec fn visible_count(s: Seq<char>, in_escape: bool) -> int
    decreases s.len(),
{
    if s.len() == 0 {
        0int
    } else if s[0] == '\x1b' {
        visible_count(s.skip(1), true)
    } else if in_escape && s[0] == 'm' {
        visible_count(s.skip(1), false)
    } else if in_escape {
        visible_count(s.skip(1), true)
    } else {
        1 + visible_count(s.skip(1), false)
    }
}

/// Counts the characters of a possibly ANSI-styled string that actually
/// show on the terminal.
#[verifier::loop_isolation(false)]
pub fn chars_count(s: &str) -> (r: usize)
    ensures
        r == visible_count(s@, false),
{
    let n = s.unicode_len();
    let mut count: usize = 0;
    let mut in_escape = false;
    let mut i: usize = 0;
    proof {
        assert(s@.skip(0) =~= s@);
    }
    while i < n
        invariant
            i <= n,
            count <= i,
            count + visible_count(s@.skip(i as int), in_escape) == visible_count(s@, false),
        decreases n - i,
    {
        proof {
            assert(s@.skip(i as int)[0] == s@[i as int]);
            assert(s@.skip(i as int).skip(1) =~= s@.skip(i + 1 as int));
        }
        let c = s.get_char(i);
        if c == '\x1b' {
            in_escape = true;
        } else if in_escape && c == 'm' {
            in_escape = false;
        } else if in_escape {
        } else {
            count += 1;
        }
        i += 1;
    }
    proof {
        assert(s@.skip(n as int) =~= Seq::<char>::empty());
    }
    count
}

/// How many leading component pairs of the two paths coincide.
pub open spec fn eq_pairs(a: Seq<Seq<char>>, b: Seq<Seq<char>>) -> int
    decreases a.len(),
{
    if a.len() == 0 || b.len() == 0 {
        0int
    } else {
        (if a[0] == b[0] {
            1int
        } else {
            0int
        }) + eq_pairs(a.skip(1), b.skip(1))
    }
}

/// The `..` path segment, as the display form writes it.
pub open spec fn updir_seg() -> Seq<char> {
    seq!['.', '.']
}

/// The display form `format_pattern` produces when it relativizes: as
/// many `..` segments as the working directory extends past the shared
/// components, then the pattern's remaining components.
pub open spec fn relative_display(w: Seq<Seq<char>>, p: Seq<Seq<char>>) -> Seq<char> {
    let index = eq_pairs(w, p);
    let ups = Seq::new((w.len() - index) as nat, |m: int| updir_seg());
    join_spec(ups + p.skip(index))
}

/// How a pattern's path reads in the report: absolute when asked for, or
/// when the working directory lies more than two directories away from
/// the shared components; otherwise relative to the working directory,
/// climbing with `..` segments where needed.
pub open spec fn format_pattern_spec(
    p: Seq<Seq<char>>,
    w: Seq<Seq<char>>,
    absolute_path: bool,
) -> Seq<char> {
    if absolute_path {
        display_spec(p)
    } else if w.len() - eq_pairs(w, p) > 2 {
        display_spec(p)
    } else {
        relative_display(w, p)
    }
}

/// Renders a pattern's path for the report, relative to the working
/// directory where that stays readable.
#[verifier::loop_isolation(false)]
pub fn format_pattern(pattern: &SegPath, workdir: &SegPath, absolute_path: bool) -> (r: String)
    ensures
        r@ == format_pattern_spec(pattern@, workdir@, absolute_path),
{
    if absolute_path {
        return pattern.to_display();
    }
    let w = workdir.segments();
    let p = pattern.segments();
    let wn = w.len();
    let pn = p.len();
    let mut index: usize = 0;
    let mut i: usize = 0;
    proof {
        assert(workdir@.skip(0) =~= workdir@);
        assert(pattern@.skip(0) =~= pattern@);
    }
    while i < wn && i < pn
        invariant
            i <= wn,
            i <= pn,
            index <= i,
            wn == workdir@.len(),
            pn == pattern@.len(),
            index + eq_pairs(workdir@.skip(i as int), pattern@.skip(i as int)) == eq_pairs(
                workdir@,
                pattern@,
            ),
        decreases wn - i,
    {
        proof {
            assert(workdir@.skip(i as int)[0] == workdir@[i as int]);
            assert(pattern@.skip(i as int)[0] == pattern@[i as int]);
            assert(workdir@.skip(i as int).skip(1) =~= workdir@.skip(i + 1 as int));
            assert(pattern@.skip(i as int).skip(1) =~= pattern@.skip(i + 1 as int));
        }
        if w[i] == p[i] {
            index += 1;
        }
        i += 1;
    }
    proof {
        if i < wn {
            assert(pattern@.skip(i as int).len() == 0);
        } else {
            assert(workdir@.skip(i as int).len() == 0);
        }
        assert(eq_pairs(workdir@.skip(i as int), pattern@.skip(i as int)) == 0);
        assert(index == eq_pairs(workdir@, pattern@));
    }
    let num_dirs_up = wn - index;
    if num_dirs_up > 2 {
        return pattern.to_display();
    }
    let ghost ups = Seq::new((workdir@.len() - index) as nat, |m: int| updir_seg());
    let ghost parts = ups + pattern@.skip(index as int);
    let mut out = String::new();
    let mut k: usize = 0;
    proof {
        assert(parts.take(0) =~= Seq::<Seq<char>>::empty());
        assert(out@ =~= join_spec(parts.take(0)));
    }
    while k < num_dirs_up
        invariant
            k <= num_dirs_up,
            num_dirs_up == ups.len(),
            num_dirs_up <= 2,
            parts == ups + pattern@.skip(index as int),
            index <= pn,
            pn == pattern@.len(),
            out@ == join_spec(parts.take(k as int)),
        decreases num_dirs_up - k,
    {
        if k > 0 {
            out.append("/");
        }
        out.append("..");
        proof {
            reveal_strlit("/");
            reveal_strlit("..");
            assert(".."@ =~= updir_seg());
            assert(parts.take(k + 1 as int).drop_last() =~= parts.take(k as int));
            assert(parts.take(k + 1 as int).last() == updir_seg());
            if k == 0 {
                assert(parts.take(1) =~= seq![updir_seg()]);
            }
            assert(out@ =~= join_spec(parts.take(k + 1 as int)));
        }
        k += 1;
    }
    let mut j: usize = index;
    while j < pn
        invariant
            index <= j <= pn,
            pn == pattern@.len(),
            num_dirs_up == ups.len(),
            parts == ups + pattern@.skip(index as int),
            out@ == join_spec(parts.take(num_dirs_up + j - index as int)),
        decreases pn - j,
    {
        let ghost pos = num_dirs_up + j - index as int;
        if num_dirs_up > 0 || j > index {
            out.append("/");
        }
        out.append(p[j].as_str());
        proof {
            reveal_strlit("/");
            assert(parts[pos] == pattern@[j as int]);
            assert(parts.take(pos + 1).drop_last() =~= parts.take(pos));
            assert(parts.take(pos + 1).last() == pattern@[j as int]);
            if pos == 0 {
                assert(parts.take(1) =~= seq![pattern@[j as int]]);
            }
            assert(out@ =~= join_spec(parts.take(pos + 1)));
        }
        j += 1;
    }
    proof {
        assert(parts.take(num_dirs_up + pn - index as int) =~= parts);
        assert(out@ =~= relative_display(workdir@, pattern@));
    }
    out
}

/// The decimal digit character for `d` in `0..10`.
pub open spec fn digit_char(d: int) -> char {
    if d == 0 {
        '0'
    } else if d == 1 {
        '1'
    } else if d == 2 {
        '2'
    } else if d == 3 {
        '3'
    } else if d == 4 {
        '4'
    } else if d == 5 {
        '5'
    } else if d == 6 {
        '6'
    } else if d == 7 {
        '7'
    } else if d == 8 {
        '8'
    } else {
        '9'
    }
}

/// The decimal rendering of a non-negative integer.
pub open spec fn dec_str(n: int) -> Seq<char>
    decreases n,
    via dec_str_dec
{
    if n < 10 {
        seq![digit_char(n)]
    } else {
        dec_str(n / 10).push(digit_char(n % 10))
    }
}

#[via_fn]
proof fn dec_str_dec(n: int) {
    if n >= 10 {
        assert(0 <= n / 10 < n) by (nonlinear_arith)
            requires
                n >= 10,
        ;
    }
}

/// `base` raised to `e`.
pub open spec fn pow_spec(base: int, e: nat) -> int
    decreases e,
{
    if e == 0 {
        1int
    } else {
        base * pow_spec(base, (e - 1) as nat)
    }
}

/// How many times `v` can be divided by `base` before falling below it.
pub open spec fn unit_count(v: int, base: int) -> nat
    decreases v,
    via unit_count_dec
{
    if base < 2 || v < base {
        0nat
    } else {
        1nat + unit_count(v / base, base)
    }
}

#[via_fn]
proof fn unit_count_dec(v: int, base: int) {
    if !(base < 2 || v < base) {
        assert(0 <= v / base < v) by (nonlinear_arith)
            requires
                base >= 2 && v >= base,
        ;
    }
}

proof fn lemma_pow_pos(base: int, e: nat)
    requires
        base >= 1,
    ensures
        pow_spec(base, e) >= 1,
    decreases e,
{
    if e > 0 {
        lemma_pow_pos(base, (e - 1) as nat);
        assert(base * pow_spec(base, (e - 1) as nat) >= 1) by (nonlinear_arith)
            requires
                base >= 1 && pow_spec(base, (e - 1) as nat) >= 1,
        ;
    }
}

proof fn lemma_pow_mono_exp(base: int, e1: nat, e2: nat)
    requires
        base >= 1,
        e1 <= e2,
    ensures
        pow_spec(base, e1) <= pow_spec(base, e2),
    decreases e2,
{
    if e1 < e2 {
        lemma_pow_mono_exp(base, e1, (e2 - 1) as nat);
        lemma_pow_pos(base, (e2 - 1) as nat);
        assert(pow_spec(base, (e2 - 1) as nat) <= base * pow_spec(base, (e2 - 1) as nat))
            by (nonlinear_arith)
            requires
                base >= 1 && pow_spec(base, (e2 - 1) as nat) >= 1,
        ;
    }
}

proof fn lemma_pow_mono_base(b1: int, b2: int, e: nat)
    requires
        1 <= b1 <= b2,
    ensures
        pow_spec(b1, e) <= pow_spec(b2, e),
    decreases e,
{
    if e > 0 {
        lemma_pow_mono_base(b1, b2, (e - 1) as nat);
        lemma_pow_pos(b1, (e - 1) as nat);
        assert(b1 * pow_spec(b1, (e - 1) as nat) <= b2 * pow_spec(b2, (e - 1) as nat))
            by (nonlinear_arith)
            requires
                1 <= b1 <= b2 && 1 <= pow_spec(b1, (e - 1) as nat) <= pow_spec(
                    b2,
                    (e - 1) as nat,
                ),
        ;
    }
}

proof fn lemma_pow1000_7_large()
    ensures
        pow_spec(1000, 7) > u64::MAX,
{
    assert(pow_spec(1000, 0) == 1);
    assert(pow_spec(1000, 1) == 1000);
    assert(pow_spec(1000, 2) == 1000000);
    assert(pow_spec(1000, 3) == 1000000000);
    assert(pow_spec(1000, 4) == 1000000000000);
    assert(pow_spec(1000, 5) == 1000000000000000);
    assert(pow_spec(1000, 6) == 1000000000000000000);
    assert(pow_spec(1000, 7) == 1000000000000000000000);
}

/// The digit characters of `ds` read back to front.
spec fn rev_chars(ds: Seq<u64>) -> Seq<char>
    decreases ds.len(),
{
    if ds.len() == 0 {
        Seq::empty()
    } else {
        rev_chars(ds.subrange(1, ds.len() as int)) + seq![digit_char(ds[0] as int)]
    }
}

proof fn lemma_rev_chars_push(ds: Seq<u64>, x: u64)
    ensures
        rev_chars(ds.push(x)) == seq![digit_char(x as int)] + rev_chars(ds),
    decreases ds.len(),
{
    let whole = ds.push(x);
    if ds.len() == 0 {
        assert(whole.subrange(1, whole.len() as int) =~= Seq::<u64>::empty());
        assert(rev_chars(Seq::<u64>::empty()) =~= Seq::<char>::empty());
        assert(ds =~= Seq::<u64>::empty());
        assert(whole[0] == x);
        assert(rev_chars(whole) == rev_chars(whole.subrange(1, whole.len() as int)) + seq![
            digit_char(whole[0] as int),
        ]);
        assert(rev_chars(whole) =~= seq![digit_char(x as int)] + rev_chars(ds));
    } else {
        assert(whole.subrange(1, whole.len() as int) =~= ds.subrange(1, ds.len() as int).push(
            x,
        ));
        lemma_rev_chars_push(ds.subrange(1, ds.len() as int), x);
        assert(rev_chars(whole) =~= seq![digit_char(x as int)] + rev_chars(ds));
    }
}

/// Appends one digit character to a string.
fn push_digit(out: &mut String, d: u64)
    requires
        d < 10,
    ensures
        final(out)@ == old(out)@ + seq![digit_char(d as int)],
{
    if d == 0 {
        out.append("0");
        proof {
            reveal_strlit("0");
            assert(old(out)@ + "0"@ =~= old(out)@ + seq![digit_char(0)]);
        }
    } else if d == 1 {
        out.append("1");
        proof {
            reveal_strlit("1");
            assert(old(out)@ + "1"@ =~= old(out)@ + seq![digit_char(1)]);
        }
    } else if d == 2 {
        out.append("2");
        proof {
            reveal_strlit("2");
            assert(old(out)@ + "2"@ =~= old(out)@ + seq![digit_char(2)]);
        }
    } else if d == 3 {
        out.append("3");
        proof {
            reveal_strlit("3");
            assert(old(out)@ + "3"@ =~= old(out)@ + seq![digit_char(3)]);
        }
    } else if d == 4 {
        out.append("4");
        proof {
            reveal_strlit("4");
            assert(old(out)@ + "4"@ =~= old(out)@ + seq![digit_char(4)]);
        }
    } else if d == 5 {
        out.append("5");
        proof {
            reveal_strlit("5");
            assert(old(out)@ + "5"@ =~= old(out)@ + seq![digit_char(5)]);
        }
    } else if d == 6 {
        out.append("6");
        proof {
            reveal_strlit("6");
            assert(old(out)@ + "6"@ =~= old(out)@ + seq![digit_char(6)]);
        }
    } else if d == 7 {
        out.append("7");
        proof {
            reveal_strlit("7");
            assert(old(out)@ + "7"@ =~= old(out)@ + seq![digit_char(7)]);
        }
    } else if d == 8 {
        out.append("8");
        proof {
            reveal_strlit("8");
            assert(old(out)@ + "8"@ =~= old(out)@ + seq![digit_char(8)]);
        }
    } else {
        out.append("9");
        proof {
            reveal_strlit("9");
            assert(old(out)@ + "9"@ =~= old(out)@ + seq![digit_char(9)]);
        }
    }
}

/// Renders an integer in decimal.
fn u64_to_string(n: u64) -> (r: String)
    ensures
        r@ == dec_str(n as int),
{
    let mut ds: Vec<u64> = Vec::new();
    let mut v: u64 = n;
    let d0 = v % 10;
    v = v / 10;
    ds.push(d0);
    proof {
        lemma_rev_chars_push(Seq::empty(), d0);
        assert(rev_chars(Seq::<u64>::empty()) =~= Seq::<char>::empty());
        if v > 0 {
            assert(n >= 10) by (nonlinear_arith)
                requires
                    v == n as int / 10 && v > 0,
            ;
            assert(dec_str(n as int) =~= dec_str(v as int) + rev_chars(ds@));
        } else {
            assert(n < 10) by (nonlinear_arith)
                requires
                    v == n as int / 10 && v == 0,
            ;
            assert(dec_str(n as int) =~= rev_chars(ds@));
        }
    }
    while v > 0
        invariant
            dec_str(n as int) == if v > 0 {
                dec_str(v as int) + rev_chars(ds@)
            } else {
                rev_chars(ds@)
            },
            forall|k: int| 0 <= k < ds@.len() ==> ds@[k] < 10,
        decreases v,
    {
        let ghost v0 = v as int;
        let ghost ds0 = ds@;
        let d = v % 10;
        v = v / 10;
        ds.push(d);
        proof {
            lemma_rev_chars_push(ds0, d);
            if v > 0 {
                assert(v0 >= 10) by (nonlinear_arith)
                    requires
                        v as int == v0 / 10 && v > 0,
                ;
                assert(dec_str(v0) == dec_str(v0 / 10).push(digit_char(v0 % 10)));
                assert(dec_str(v0) + rev_chars(ds0) =~= dec_str(v as int) + rev_chars(ds@));
            } else {
                assert(v0 < 10) by (nonlinear_arith)
                    requires
                        v as int == v0 / 10 && v == 0,
                ;
                assert(dec_str(v0) + rev_chars(ds0) =~= rev_chars(ds@));
            }
        }
    }
    let mut out = String::new();
    let mut k = ds.len();
    proof {
        assert(ds@.subrange(k as int, ds@.len() as int) =~= Seq::<u64>::empty());
        assert(out@ =~= rev_chars(ds@.subrange(k as int, ds@.len() as int)));
    }
    while k > 0
        invariant
            k <= ds@.len(),
            forall|m: int| 0 <= m < ds@.len() ==> ds@[m] < 10,
            out@ == rev_chars(ds@.subrange(k as int, ds@.len() as int)),
            dec_str(n as int) == rev_chars(ds@),
        decreases k,
    {
        k = k - 1;
        let d = ds[k];
        push_digit(&mut out, d);
        proof {
            let tail = ds@.subrange(k as int, ds@.len() as int);
            assert(tail.subrange(1, tail.len() as int) =~= ds@.subrange(
                k + 1 as int,
                ds@.len() as int,
            ));
            assert(out@ =~= rev_chars(tail));
        }
    }
    proof {
        assert(ds@.subrange(0, ds@.len() as int) =~= ds@);
    }
    out
}

/// The unit suffix the human-readable form uses for each power of 1000.
pub open spec fn hr_suffix(e: nat) -> Seq<char> {
    if e == 1 {
        seq!['K']
    } else if e == 2 {
        seq!['M']
    } else if e == 3 {
        seq!['G']
    } else if e == 4 {
        seq!['T']
    } else {
        Seq::empty()
    }
}

/// The human-readable form of a byte count: nothing for zero, otherwise
/// the leading base-1000 digit group followed by its unit letter (bare
/// beyond terabytes).
pub open spec fn hr_spec(size: int) -> Seq<char> {
    if size == 0 {
        Seq::empty()
    } else {
        let e = unit_count(size, 1000);
        dec_str(size / pow_spec(1000, e)) + hr_suffix(e)
    }
}

/// Renders a byte count with base-1000 units, the empty string for zero.
#[verifier::loop_isolation(false)]
pub fn to_humanreadable(size: u64) -> (r: String)
    ensures
        r@ == hr_spec(size as int),
{
    if size == 0 {
        return String::new();
    }
    let mut res: u64 = size;
    let mut p: u64 = 1;
    let mut i: u64 = 0;
    while res >= 1000
        invariant
            size >= 1,
            p == pow_spec(1000, i as nat),
            res == size as int / pow_spec(1000, i as nat),
            size >= pow_spec(1000, i as nat),
            unit_count(size as int, 1000) == i + unit_count(res as int, 1000),
        decreases res,
    {
        proof {
            let pi = pow_spec(1000, i as nat);
            lemma_pow_pos(1000, i as nat);
            assert(size >= 1000 * pi) by (nonlinear_arith)
                requires
                    res as int == size as int / pi && pi >= 1 && res >= 1000,
            ;
            assert(pow_spec(1000, (i + 1) as nat) == 1000 * pi);
            assert(i < 7) by {
                if i >= 7 {
                    lemma_pow1000_7_large();
                    lemma_pow_mono_exp(1000, 7, i as nat);
                }
            }
            assert(size as int / pi / 1000 == size as int / (pi * 1000)) by (nonlinear_arith)
                requires
                    pi >= 1,
            ;
            assert(res as int / 1000 < res) by (nonlinear_arith)
                requires
                    res >= 1000,
            ;
        }
        res = res / 1000;
        p = p * 1000;
        i = i + 1;
    }
    proof {
        assert(unit_count(res as int, 1000) == 0);
        assert(unit_count(size as int, 1000) == i);
    }
    proof {
        lemma_pow_pos(1000, i as nat);
    }
    let s = size / p;
    let mut out = u64_to_string(s);
    if i == 1 {
        out.append("K");
        proof {
            reveal_strlit("K");
            assert(out@ =~= hr_spec(size as int));
        }
    } else if i == 2 {
        out.append("M");
        proof {
            reveal_strlit("M");
            assert(out@ =~= hr_spec(size as int));
        }
    } else if i == 3 {
        out.append("G");
        proof {
            reveal_strlit("G");
            assert(out@ =~= hr_spec(size as int));
        }
    } else if i == 4 {
        out.append("T");
        proof {
            reveal_strlit("T");
            assert(out@ =~= hr_spec(size as int));
        }
    } else {
        proof {
            assert(out@ =~= hr_spec(size as int));
        }
    }
    out
}

/// The scale a size was reduced by: a power of 1000 or of 1024.
#[derive(Clone, Copy)]
pub enum SizeUnitRaw {
    NoUnit,
    Kilo,
    Mega,
    Giga,
    Tera,
}

/// The unit a scale count maps to.  A count of four deliberately has no
/// letter of its own here, mirroring the table this rendering comes from;
/// only a count of exactly five reads as tera.
pub open spec fn unit_of_count(e: nat) -> SizeUnitRaw {
    if e == 1 {
        SizeUnitRaw::Kilo
    } else if e == 2 {
        SizeUnitRaw::Mega
    } else if e == 3 {
        SizeUnitRaw::Giga
    } else if e == 5 {
        SizeUnitRaw::Tera
    } else {
        SizeUnitRaw::NoUnit
    }
}

/// The letter of a unit.
pub open spec fn unit_letter(u: SizeUnitRaw) -> char {
    match u {
        SizeUnitRaw::Kilo => 'K',
        SizeUnitRaw::Mega => 'M',
        SizeUnitRaw::Giga => 'G',
        SizeUnitRaw::Tera => 'T',
        SizeUnitRaw::NoUnit => 'B',
    }
}

/// A byte count reduced to a value below its base, together with the unit
/// it was reduced by; `base2` selects 1024 over 1000 and the `KiB` spelling
/// over `KB`.
pub struct SizeUnit {
    pub val: u64,
    pub unit: SizeUnitRaw,
    pub base2: bool,
}

/// The rendering of a reduced size: the value with its unit, with two
/// decimal places shown below ten and one below a hundred (always zeros,
/// since the stored value is integral), and a bare `B` when unitless.
pub open spec fn size_display_spec(val: int, unit: SizeUnitRaw, base2: bool) -> Seq<char> {
    if unit is NoUnit {
        dec_str(val) + seq!['B']
    } else {
        let mid = if base2 {
            seq![unit_letter(unit), 'i', 'B']
        } else {
            seq![unit_letter(unit), 'B']
        };
        if val < 10 {
            dec_str(val) + seq!['.', '0', '0'] + mid
        } else if val < 100 {
            dec_str(val) + seq!['.', '0'] + mid
        } else {
            dec_str(val) + mid
        }
    }
}

impl SizeUnit {
    /// Reduces a byte count by its base until it falls below it, counting
    /// the steps and mapping the count to a unit.
    #[verifier::loop_isolation(false)]
    pub fn new(val: u64, base2: bool) -> (r: SizeUnit)
        ensures
            r.base2 == base2,
            r.val == val as int / pow_spec(if base2 { 1024int } else { 1000int }, unit_count(
                val as int,
                if base2 { 1024int } else { 1000int },
            )),
            r.unit == unit_of_count(unit_count(
                val as int,
                if base2 { 1024int } else { 1000int },
            )),
    {
        let base: u64 = if base2 { 1024 } else { 1000 };
        let mut v: u64 = val;
        let mut i: u64 = 0;
        while v >= base
            invariant
                base == if base2 { 1024int } else { 1000int },
                v == val as int / pow_spec(base as int, i as nat),
                i > 0 ==> val >= pow_spec(base as int, i as nat),
                unit_count(val as int, base as int) == i + unit_count(v as int, base as int),
            decreases v,
        {
            proof {
                let pi = pow_spec(base as int, i as nat);
                lemma_pow_pos(base as int, i as nat);
                assert(val as int >= (base as int) * pi) by (nonlinear_arith)
                    requires
                        v as int == (val as int) / pi && pi >= 1 && v >= base && base >= 1000,
                ;
                assert(pow_spec(base as int, (i + 1) as nat) == (base as int) * pi);
                assert(i < 7) by {
                    if i >= 7 {
                        lemma_pow1000_7_large();
                        lemma_pow_mono_base(1000, base as int, 7);
                        lemma_pow_mono_exp(base as int, 7, i as nat);
                    }
                }
                assert((val as int) / pi / (base as int) == (val as int) / (pi * (base as int)))
                    by (nonlinear_arith)
                    requires
                        pi >= 1 && base >= 1000,
                ;
                assert((v as int) / (base as int) < v as int) by (nonlinear_arith)
                    requires
                        v >= base && base >= 1000,
                ;
            }
            v = v / base;
            i = i + 1;
        }
        proof {
            assert(unit_count(v as int, base as int) == 0);
            assert(unit_count(val as int, base as int) == i);
        }
        let unit = if i == 1 {
            SizeUnitRaw::Kilo
        } else if i == 2 {
            SizeUnitRaw::Mega
        } else if i == 3 {
            SizeUnitRaw::Giga
        } else if i == 5 {
            SizeUnitRaw::Tera
        } else {
            SizeUnitRaw::NoUnit
        };
        SizeUnit { val: v, unit, base2 }
    }

    /// The rendered form, such as `4.00KiB`, `46.0MB` or `123B`.
    pub fn display_string(&self) -> (r: String)
        ensures
            r@ == size_display_spec(self.val as int, self.unit, self.base2),
    {
        let mut out = u64_to_string(self.val);
        match self.unit {
            SizeUnitRaw::NoUnit => {
                out.append("B");
                proof {
                    reveal_strlit("B");
                    assert(out@ =~= size_display_spec(self.val as int, self.unit, self.base2));
                }
                return out;
            },
            _ => {},
        }
        if self.val < 10 {
            out.append(".00");
            proof {
                reveal_strlit(".00");
                assert(".00"@ =~= seq!['.', '0', '0']);
            }
        } else if self.val < 100 {
            out.append(".0");
            proof {
                reveal_strlit(".0");
                assert(".0"@ =~= seq!['.', '0']);
            }
        }
        match self.unit {
            SizeUnitRaw::Kilo => out.append("K"),
            SizeUnitRaw::Mega => out.append("M"),
            SizeUnitRaw::Giga => out.append("G"),
            SizeUnitRaw::Tera => out.append("T"),
            SizeUnitRaw::NoUnit => {},
        }
        proof {
            reveal_strlit("K");
            reveal_strlit("M");
            reveal_strlit("G");
            reveal_strlit("T");
        }
        if self.base2 {
            out.append("i");
            proof {
                reveal_strlit("i");
            }
        }
        out.append("B");
        proof {
            reveal_strlit("B");
            assert(out@ =~= size_display_spec(self.val as int, self.unit, self.base2));
        }
        out
    }
}

} // verus!
