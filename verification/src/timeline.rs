use vstd::prelude::*;

use crate::text::{decimal, digit_char, push_char, push_str, string_of, u64_decimal};

verus! {

/// How many decimals the label of `ms` milliseconds shows: none for whole
/// seconds, one for tenths, two for hundredths, else three.
pub open spec fn label_decimals(ms: int) -> nat {
    if ms % 1000 == 0 {
        0
    } else if ms % 100 == 0 {
        1
    } else if ms % 10 == 0 {
        2
    } else {
        3
    }
}

/// The absolute value.
pub open spec fn abs(x: int) -> nat {
    if x < 0 {
        (-x) as nat
    } else {
        x as nat
    }
}

/// The first `k` of the three decimals of the millisecond part `r < 1000`,
/// after a `.`; nothing when `k` is 0.
pub open spec fn fraction_text(r: nat, k: nat) -> Seq<char> {
    if k == 0 {
        Seq::empty()
    } else {
        seq!['.'] + seq![digit_char(r / 100), digit_char((r / 10) % 10), digit_char(r % 10)].take(
            k as int,
        )
    }
}

/// The label of a grid line at `ms` milliseconds: the time in seconds with
/// as many decimals as it needs (at most three), then ` s`.
pub open spec fn grid_text_spec(ms: int) -> Seq<char> {
    (if ms < 0 {
        seq!['-']
    } else {
        Seq::<char>::empty()
    }) + decimal(abs(ms) / 1000) + fraction_text(abs(ms) % 1000, label_decimals(abs(ms) as int)) + " s"@
}

/// Append `.` and the first `k` of the three decimals of `frac` to `r`.
fn push_fraction(r: &mut String, frac: u64, k: u64)
    requires
        frac < 1000,
        k <= 3,
    ensures
        final(r)@ == old(r)@ + fraction_text(frac as nat, k as nat),
{
    if k > 0 {
        let d0 = ((frac / 100) as u8 + 48) as char;
        let d1 = (((frac / 10) % 10) as u8 + 48) as char;
        let d2 = ((frac % 10) as u8 + 48) as char;
        let ghost before = r@;
        push_char(r, '.');
        push_char(r, d0);
        if k > 1 {
            push_char(r, d1);
        }
        if k > 2 {
            push_char(r, d2);
        }
        assert(r@ =~= before + fraction_text(frac as nat, k as nat));
    } else {
        assert(r@ =~= old(r)@ + fraction_text(frac as nat, k as nat));
    }
}

/// The number of decimals that the label of `a` milliseconds shows.
fn decimals_of(a: u64) -> (k: u64)
    ensures
        k == label_decimals(a as int),
{
    if a % 1000 == 0 {
        0
    } else if a % 100 == 0 {
        1
    } else if a % 10 == 0 {
        2
    } else {
        3
    }
}

/// The label of the grid line at `grid_ms` milliseconds, e.g. `1.5 s`: the
/// exact decimal value in seconds.
pub fn grid_text(grid_ms: i64) -> (r: String)
    ensures
        r@ == grid_text_spec(grid_ms as int),
{
    let mut r = String::new();
    let a: u64 = if grid_ms < 0 {
        push_char(&mut r, '-');
        (-(grid_ms + 1)) as u64 + 1
    } else {
        grid_ms as u64
    };
    assert(a == abs(grid_ms as int));
    let whole = u64_decimal(a / 1000);
    push_str(&mut r, whole.as_str());
    push_fraction(&mut r, a % 1000, decimals_of(a));
    push_str(&mut r, " s");
    r
}


/// The label of `ms >= 0` milliseconds: the whole seconds in decimal, then,
/// unless `ms` is a whole second, `.` and the fewest decimals that show the
/// milliseconds exactly (the `j`-th being the digit of `10^(2-j)` in the
/// millisecond part), then ` s`.
pub proof fn lemma_grid_text_shape(ms: int)
    requires
        0 <= ms,
    ensures
        ({
            let k = label_decimals(ms);
            let r = ms % 1000;
            let w = decimal((ms / 1000) as nat);
            let t = grid_text_spec(ms);
            &&& k <= 3
            &&& ms % pow10((3 - k) as nat) as int == 0
            &&& k > 0 ==> ms % pow10((4 - k) as nat) as int != 0
            &&& t.len() == w.len() + (if k == 0 {
                0
            } else {
                k + 1
            }) + 2
            &&& t.subrange(0, w.len() as int) == w
            &&& k > 0 ==> t[w.len() as int] == '.'
            &&& forall|j: int|
                0 <= j < k ==> #[trigger] t[w.len() + 1 + j] == digit_char(
                    ((r / pow10((2 - j) as nat) as int) % 10) as nat,
                )
            &&& t.subrange(t.len() - 2, t.len() as int) == " s"@
        }),
{
    reveal_with_fuel(pow10, 5);
    reveal_strlit(" s");
    let k = label_decimals(ms);
    let r = ms % 1000;
    let w = decimal((ms / 1000) as nat);
    let t = grid_text_spec(ms);
    let f = fraction_text(r as nat, k);
    assert(abs(ms) == ms);
    assert(t =~= w + f + " s"@);
    assert(t.subrange(0, w.len() as int) =~= w);
    assert(t.subrange(t.len() - 2, t.len() as int) =~= " s"@);
    assert forall|j: int| 0 <= j < k implies #[trigger] t[w.len() + 1 + j] == digit_char(
        ((r / pow10((2 - j) as nat) as int) % 10) as nat,
    ) by {
        assert(t[w.len() + 1 + j] == f[1 + j]);
        if j == 0 {
            assert((r / 100) % 10 == r / 100);
        }
    }
}

/// The label of a negative time is `-` and the label of its magnitude.
pub proof fn lemma_grid_text_negative(m: int)
    requires
        0 < m,
    ensures
        grid_text_spec(-m) == seq!['-'] + grid_text_spec(m),
{
    assert(abs(-m) == m);
    assert(abs(m) == m);
    assert(grid_text_spec(-m) =~= seq!['-'] + grid_text_spec(m));
}

/// Ten to the power `k`.
pub open spec fn pow10(k: nat) -> nat
    decreases k,
{
    if k == 0 {
        1
    } else {
        10 * pow10((k - 1) as nat)
    }
}

/// The grid spacing of a timeline `width_ms` wide that may show at most
/// `max_lines` lines: the smallest power of ten (at least one millisecond)
/// at which `width_ms / spacing` lines fit.
pub open spec fn is_grid_spacing(width_ms: int, max_lines: int, spacing: int) -> bool {
    exists|k: nat|
        #![trigger pow10(k)]
        {
            &&& spacing == pow10(k)
            &&& width_ms / spacing <= max_lines
            &&& forall|j: nat| j < k ==> (width_ms as int) / (#[trigger] pow10(j) as int) > max_lines as int
        }
}

proof fn lemma_pow10_pos(k: nat)
    ensures
        pow10(k) >= 1,
    decreases k,
{
    if k > 0 {
        lemma_pow10_pos((k - 1) as nat);
    }
}

/// The spacing of the grid lines, in milliseconds, of a timeline
/// `width_ms` wide with room for `max_lines` lines.
pub fn grid_spacing_ms(width_ms: i64, max_lines: i64) -> (spacing: i64)
    requires
        0 < width_ms <= i64::MAX / 10,
        0 <= max_lines,
    ensures
        is_grid_spacing(width_ms as int, max_lines as int, spacing as int),
        1 <= spacing,
{
    let mut spacing: i64 = 1;
    let ghost mut k: nat = 0;
    assert(pow10(0) == 1);
    while width_ms / spacing > max_lines
        invariant
            0 < width_ms <= i64::MAX / 10,
            0 <= max_lines,
            1 <= spacing <= 10 * width_ms,
            spacing == pow10(k),
            forall|j: nat| j < k ==> (width_ms as int) / (#[trigger] pow10(j) as int) > max_lines as int,
        decreases 10 * width_ms - spacing,
    {
        proof {
            assert(forall|j: nat| j < k + 1 ==> (width_ms as int) / (#[trigger] pow10(j) as int) > max_lines as int) by {
                assert forall|j: nat| j < k + 1 implies (width_ms as int) / (#[trigger] pow10(j) as int) > max_lines as int by {
                    if j == k {}
                }
            }
        }
        assert(spacing <= width_ms) by (nonlinear_arith)
            requires width_ms / spacing > max_lines >= 0, spacing >= 1, width_ms > 0;
        spacing = spacing * 10;
        proof {
            k = k + 1;
            assert(pow10(k) == 10 * pow10((k - 1) as nat));
        }
    }
    assert(is_grid_spacing(width_ms as int, max_lines as int, spacing as int));
    spacing
}

/// The kind of a grid line.
#[derive(Debug, Clone, Copy, PartialEq, Eq, Structural)]
pub enum GridLine {
    /// Every hundredth line.
    Big,
    /// Every tenth line that is not big.
    Medium,
    /// The others.
    Tiny,
}

/// The kind of the grid line at `ms` on a grid with this spacing: big on
/// multiples of a hundred spacings, medium on multiples of ten, else tiny.
pub open spec fn grid_line_spec(ms: int, spacing: int) -> GridLine {
    if ms % (spacing * 100) == 0 {
        GridLine::Big
    } else if ms % (spacing * 10) == 0 {
        GridLine::Medium
    } else {
        GridLine::Tiny
    }
}

/// `k * s` is a multiple of `m * s` exactly when `k` is a multiple of `m`.
proof fn lemma_scaled_multiple(k: int, m: int, s: int)
    requires
        0 <= k,
        0 < m,
        0 < s,
    ensures
        ((k * s) % (m * s) == 0) == (k % m == 0),
{
    vstd::arithmetic::div_mod::lemma_fundamental_div_mod(k, m);
    vstd::arithmetic::div_mod::lemma_mod_pos_bound(k, m);
    let q = k / m;
    let r = k % m;
    assert(k * s == (m * s) * q + r * s) by (nonlinear_arith)
        requires
            k == m * q + r,
    ;
    assert(0 <= r * s < m * s) by (nonlinear_arith)
        requires
            0 <= r < m,
            0 < s,
    ;
    vstd::arithmetic::div_mod::lemma_fundamental_div_mod_converse_mod(k * s, m * s, q, r * s);
    assert((r * s == 0) == (r == 0)) by (nonlinear_arith)
        requires
            0 < s,
    ;
}

/// The line `k` spacings into the grid is big exactly when `k` is a
/// multiple of 100, medium exactly when it is a multiple of 10 but not of
/// 100, and tiny otherwise; a time off the grid's spacing is a tiny line.
pub proof fn lemma_grid_line_kinds(ms: int, spacing: int)
    requires
        0 <= ms,
        0 < spacing,
    ensures
        ms % spacing == 0 ==> (grid_line_spec(ms, spacing) == GridLine::Big) == ((ms / spacing)
            % 100 == 0),
        ms % spacing == 0 ==> (grid_line_spec(ms, spacing) == GridLine::Medium) == ((ms / spacing)
            % 10 == 0 && (ms / spacing) % 100 != 0),
        ms % spacing == 0 ==> (grid_line_spec(ms, spacing) == GridLine::Tiny) == ((ms / spacing)
            % 10 != 0),
        ms % spacing != 0 ==> grid_line_spec(ms, spacing) == GridLine::Tiny,
{
    vstd::arithmetic::div_mod::lemma_fundamental_div_mod(ms, spacing);
    vstd::arithmetic::div_mod::lemma_mod_pos_bound(ms, spacing);
    let k = ms / spacing;
    assert(0 <= k) by (nonlinear_arith)
        requires
            0 <= ms,
            0 < spacing,
            k == ms / spacing,
    ;
    if ms % spacing == 0 {
        assert(ms == k * spacing) by (nonlinear_arith)
            requires
                ms == spacing * k + ms % spacing,
                ms % spacing == 0,
        ;
        lemma_scaled_multiple(k, 100, spacing);
        lemma_scaled_multiple(k, 10, spacing);
        assert(100 * spacing == spacing * 100 && 10 * spacing == spacing * 10);
        if k % 100 == 0 {
            assert(k % 10 == 0) by {
                vstd::arithmetic::div_mod::lemma_fundamental_div_mod(k, 100);
                assert(k == 10 * (10 * (k / 100)));
                vstd::arithmetic::div_mod::lemma_fundamental_div_mod_converse_mod(
                    k,
                    10,
                    10 * (k / 100),
                    0,
                );
            }
        }
    } else {
        // a multiple of ten or a hundred spacings is a multiple of the spacing
        if ms % (spacing * 10) == 0 {
            vstd::arithmetic::div_mod::lemma_fundamental_div_mod(ms, spacing * 10);
            let q = ms / (spacing * 10);
            assert(ms == spacing * (10 * q)) by (nonlinear_arith)
                requires
                    ms == (spacing * 10) * q + ms % (spacing * 10),
                    ms % (spacing * 10) == 0,
            ;
            vstd::arithmetic::div_mod::lemma_fundamental_div_mod_converse_mod(ms, spacing, 10 * q, 0);
        }
        if ms % (spacing * 100) == 0 {
            vstd::arithmetic::div_mod::lemma_fundamental_div_mod(ms, spacing * 100);
            let q = ms / (spacing * 100);
            assert(ms == spacing * (100 * q)) by (nonlinear_arith)
                requires
                    ms == (spacing * 100) * q + ms % (spacing * 100),
                    ms % (spacing * 100) == 0,
            ;
            vstd::arithmetic::div_mod::lemma_fundamental_div_mod_converse_mod(ms, spacing, 100 * q, 0);
        }
    }
}

/// The kind of the grid line at `ms` on a grid with this spacing.
pub fn grid_line(ms: i64, spacing: i64) -> (l: GridLine)
    requires
        0 <= ms,
        1 <= spacing <= i64::MAX / 100,
    ensures
        l == grid_line_spec(ms as int, spacing as int),
        ms % spacing == 0 ==> (l == GridLine::Big) == ((ms / spacing) % 100 == 0),
        ms % spacing == 0 ==> (l == GridLine::Medium) == ((ms / spacing) % 10 == 0 && (ms
            / spacing) % 100 != 0),
        ms % spacing != 0 ==> l == GridLine::Tiny,
{
    proof {
        lemma_grid_line_kinds(ms as int, spacing as int);
    }
    if ms % (spacing * 100) == 0 {
        GridLine::Big
    } else if ms % (spacing * 10) == 0 {
        GridLine::Medium
    } else {
        GridLine::Tiny
    }
}

/// Whether a grid line of this kind carries a time label: big and medium
/// lines do (the label is drawn while its fade is above zero).
pub fn grid_line_has_label(l: GridLine) -> (r: bool)
    ensures
        r == (l != GridLine::Tiny),
{
    match l {
        GridLine::Tiny => false,
        _ => true,
    }
}

} // verus!
