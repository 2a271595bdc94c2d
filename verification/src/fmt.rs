//! A small printf-style formatter for the integer and float display formats
//! of the watch list (`%5.2f`, `%08x`, `%-10d`, ...).
//!
//! A format is read as a sequence of pieces: literal characters and
//! conversions. A conversion is `%`, then any of the flags `-+ 0#`, an
//! optional width, an optional `.` and precision, and the conversion
//! character. `%%` is a literal `%`; a format that ends inside a conversion
//! stops there.

use vstd::prelude::*;
use crate::num::{all_digits, decimal, digit_char, digits, digits_value, push_digits};
use crate::text::{chars_of, string_of};

verus! {

broadcast use vstd::string::group_string_axioms;

/// One conversion of a format.
#[derive(Clone, Copy, Debug)]
pub struct ConvSpec {
    /// `-`: pad on the right.
    pub minus: bool,
    /// `+`: a `+` before non-negative decimal values.
    pub plus: bool,
    /// ` `: a space before non-negative decimal values.
    pub space: bool,
    /// `0`: pad with zeros after the sign.
    pub zero: bool,
    /// `#`: the `0x` / `0X` / `0` prefix for hex and octal.
    pub hash: bool,
    pub width: Option<usize>,
    pub prec: Option<usize>,
    /// The conversion character.
    pub conv: char,
}

/// A piece of a format.
#[derive(Clone, Copy, Debug)]
pub enum Piece {
    Lit(char),
    Conv(ConvSpec),
}

pub open spec fn is_flag(c: char) -> bool {
    c == '-' || c == '+' || c == ' ' || c == '0' || c == '#'
}

pub open spec fn is_digit(c: char) -> bool {
    48 <= c as u32 <= 57
}

/// The end of the run of flag characters that starts at `i`.
pub open spec fn flags_end(s: Seq<char>, i: int) -> int
    decreases s.len() - i,
{
    if 0 <= i < s.len() && is_flag(s[i]) {
        flags_end(s, i + 1)
    } else {
        i
    }
}

/// The end of the run of ASCII digits that starts at `i`.
pub open spec fn digits_end(s: Seq<char>, i: int) -> int
    decreases s.len() - i,
{
    if 0 <= i < s.len() && is_digit(s[i]) {
        digits_end(s, i + 1)
    } else {
        i
    }
}

/// Where the width of a conversion whose flags start at `i` ends.
pub open spec fn width_end(s: Seq<char>, i: int) -> int {
    digits_end(s, flags_end(s, i))
}

pub open spec fn has_prec(s: Seq<char>, i: int) -> bool {
    width_end(s, i) < s.len() && s[width_end(s, i)] == '.'
}

pub open spec fn prec_end(s: Seq<char>, i: int) -> int {
    digits_end(s, width_end(s, i) + 1)
}

/// The position of the conversion character.
pub open spec fn conv_pos(s: Seq<char>, i: int) -> int {
    if has_prec(s, i) {
        prec_end(s, i)
    } else {
        width_end(s, i)
    }
}

pub open spec fn width_value(s: Seq<char>, i: int) -> Option<nat> {
    if width_end(s, i) > flags_end(s, i) {
        Some(digits_value(s.subrange(flags_end(s, i), width_end(s, i))))
    } else {
        None
    }
}

pub open spec fn prec_value(s: Seq<char>, i: int) -> Option<nat> {
    if has_prec(s, i) {
        Some(digits_value(s.subrange(width_end(s, i) + 1, prec_end(s, i))))
    } else {
        None
    }
}

pub open spec fn fits_usize(n: Option<nat>) -> bool {
    match n {
        Some(k) => k <= usize::MAX,
        None => true,
    }
}

pub open spec fn to_usize(n: Option<nat>) -> Option<usize> {
    match n {
        Some(k) => Some(k as usize),
        None => None,
    }
}

/// Whether the width and precision of the conversion at `i` fit a `usize`.
pub open spec fn numbers_fit(s: Seq<char>, i: int) -> bool {
    fits_usize(width_value(s, i)) && fits_usize(prec_value(s, i))
}

/// The conversion whose flags start at `i`.
pub open spec fn spec_at(s: Seq<char>, i: int) -> ConvSpec {
    let f = s.subrange(i, flags_end(s, i));
    ConvSpec {
        minus: f.contains('-'),
        plus: f.contains('+'),
        space: f.contains(' '),
        zero: f.contains('0'),
        hash: f.contains('#'),
        width: to_usize(width_value(s, i)),
        prec: to_usize(prec_value(s, i)),
        conv: s[conv_pos(s, i)],
    }
}

/// The runs of flags and digits go forward and stay inside the text.
pub proof fn lemma_runs(s: Seq<char>, i: int)
    requires
        0 <= i <= s.len(),
    ensures
        i <= flags_end(s, i) <= s.len(),
        i <= digits_end(s, i) <= s.len(),
        forall|k: int| i <= k < flags_end(s, i) ==> is_flag(#[trigger] s[k]),
        flags_end(s, i) < s.len() ==> !is_flag(s[flags_end(s, i)]),
        digits_end(s, i) < s.len() ==> !is_digit(s[digits_end(s, i)]),
        all_digits(s.subrange(i, digits_end(s, i))),
    decreases s.len() - i,
{
    if i < s.len() {
        lemma_runs(s, i + 1);
        if is_digit(s[i]) {
            assert forall|k: int| 0 <= k < s.subrange(i, digits_end(s, i)).len() implies 48 <= (
            #[trigger] s.subrange(i, digits_end(s, i))[k]) as u32 <= 57 by {
                if k > 0 {
                    assert(s.subrange(i, digits_end(s, i))[k] == s.subrange(
                        i + 1,
                        digits_end(s, i + 1),
                    )[k - 1]);
                }
            }
        }
    }
}

/// The conversion character comes at or after the flags.
pub proof fn lemma_conv_pos(s: Seq<char>, i: int)
    requires
        0 <= i <= s.len(),
    ensures
        i <= flags_end(s, i) <= width_end(s, i) <= conv_pos(s, i) <= s.len(),
        has_prec(s, i) ==> width_end(s, i) + 1 <= prec_end(s, i) <= s.len(),
{
    lemma_runs(s, i);
    lemma_runs(s, flags_end(s, i));
    if has_prec(s, i) {
        lemma_runs(s, width_end(s, i) + 1);
    }
}

/// A literal piece.
pub open spec fn lit(c: char) -> Piece {
    Piece::Lit(c)
}

/// The conversion piece whose flags start at `i`.
pub open spec fn conv_piece(s: Seq<char>, i: int) -> Piece {
    Piece::Conv(spec_at(s, i))
}

/// The pieces of `s` from position `i` on.
pub open spec fn pieces_from(s: Seq<char>, i: int) -> Seq<Piece>
    decreases s.len() - i,
{
    if i < 0 || i >= s.len() {
        seq![]
    } else if s[i] != '%' {
        seq![lit(s[i])] + pieces_from(s, i + 1)
    } else if i + 1 >= s.len() {
        seq![]
    } else if s[i + 1] == '%' {
        seq![lit('%')] + pieces_from(s, i + 2)
    } else if conv_pos(s, i + 1) >= s.len() {
        seq![]
    } else {
        proof {
            lemma_conv_pos(s, i + 1);
        }
        seq![conv_piece(s, i + 1)] + pieces_from(s, conv_pos(s, i + 1) + 1)
    }
}

/// Whether every width and precision read from `i` on fits a `usize`
/// (including those of a conversion cut off by the end of the text).
pub open spec fn fits_from(s: Seq<char>, i: int) -> bool
    decreases s.len() - i,
{
    if i < 0 || i >= s.len() {
        true
    } else if s[i] != '%' {
        fits_from(s, i + 1)
    } else if i + 1 >= s.len() {
        true
    } else if s[i + 1] == '%' {
        fits_from(s, i + 2)
    } else if conv_pos(s, i + 1) >= s.len() {
        numbers_fit(s, i + 1)
    } else {
        proof {
            lemma_conv_pos(s, i + 1);
        }
        numbers_fit(s, i + 1) && fits_from(s, conv_pos(s, i + 1) + 1)
    }
}

/// The pieces of a format.
pub open spec fn pieces(s: Seq<char>) -> Seq<Piece> {
    pieces_from(s, 0)
}

/// Whether every width and precision of a format fits a `usize`.
pub open spec fn format_fits(s: Seq<char>) -> bool {
    fits_from(s, 0)
}

// ---------------------------------------------------------------------------
// Rendering an integer

/// `v` read as an unsigned 64-bit value (two's complement).
pub open spec fn unsigned_of(v: i64) -> nat {
    if v < 0 {
        (v + 0x1_0000_0000_0000_0000) as nat
    } else {
        v as nat
    }
}

/// `v` in decimal, with a `-` when negative.
pub open spec fn signed_decimal(v: i64) -> Seq<char> {
    if v < 0 {
        seq!['-'] + decimal((-v) as nat)
    } else {
        decimal(v as nat)
    }
}

/// The text of a conversion before signs, precision and width: `u`, `x`,
/// `X` and `o` read the value as unsigned, `c` as a byte; `d`, `i` and every
/// other character give the signed decimal.
pub open spec fn base_text(conv: char, v: i64, hash: bool) -> Seq<char> {
    let u = unsigned_of(v);
    if conv == 'u' {
        decimal(u)
    } else if conv == 'x' {
        (if hash {
            seq!['0', 'x']
        } else {
            seq![]
        }) + digits(u, 16, false)
    } else if conv == 'X' {
        (if hash {
            seq!['0', 'X']
        } else {
            seq![]
        }) + digits(u, 16, true)
    } else if conv == 'o' {
        (if hash {
            seq!['0']
        } else {
            seq![]
        }) + digits(u, 8, false)
    } else if conv == 'c' {
        seq![((u % 256) as u8) as char]
    } else {
        signed_decimal(v)
    }
}

/// The `+` / ` ` flags, which apply to non-negative `d` and `i` only.
pub open spec fn signed_text(core: Seq<char>, conv: char, v: i64, plus: bool, space: bool) -> Seq<
    char,
> {
    if v >= 0 && (conv == 'd' || conv == 'i') {
        if plus {
            seq!['+'] + core
        } else if space {
            seq![' '] + core
        } else {
            core
        }
    } else {
        core
    }
}

pub open spec fn is_sign(c: char) -> bool {
    c == '-' || c == '+' || c == ' '
}

/// The number of sign characters (`-`, `+`, ` `) that `s` begins with.
pub open spec fn sign_len(s: Seq<char>) -> nat
    decreases s.len(),
{
    if s.len() > 0 && is_sign(s[0]) {
        1 + sign_len(s.drop_first())
    } else {
        0
    }
}

pub open spec fn zeros(n: nat) -> Seq<char> {
    Seq::new(n, |k: int| '0')
}

pub open spec fn spaces(n: nat) -> Seq<char> {
    Seq::new(n, |k: int| ' ')
}

/// The precision: zeros after the leading signs until that many characters
/// follow them.
pub open spec fn with_prec(core: Seq<char>, prec: Option<usize>) -> Seq<char> {
    match prec {
        Some(p) => {
            let sl = sign_len(core);
            let d = core.len() - sl;
            if p > d {
                core.take(sl as int) + zeros((p - d) as nat) + core.skip(sl as int)
            } else {
                core
            }
        },
        None => core,
    }
}

/// A conversion of an integer, before the width.
pub open spec fn int_core(
    conv: char,
    v: i64,
    prec: Option<usize>,
    plus: bool,
    space: bool,
    hash: bool,
) -> Seq<char> {
    with_prec(signed_text(base_text(conv, v, hash), conv, v, plus, space), prec)
}

/// The width: spaces after (`left`), zeros after the leading signs
/// (`zero`), or spaces before.
pub open spec fn padded(core: Seq<char>, width: Option<usize>, left: bool, zero: bool) -> Seq<char> {
    match width {
        Some(w) => if w > core.len() {
            let n = (w - core.len()) as nat;
            if left {
                core + spaces(n)
            } else if zero {
                let sl = sign_len(core) as int;
                core.take(sl) + zeros(n) + core.skip(sl)
            } else {
                spaces(n) + core
            }
        } else {
            core
        },
        None => core,
    }
}

pub open spec fn render_piece(p: Piece, v: i64) -> Seq<char> {
    match p {
        Piece::Lit(c) => seq![c],
        Piece::Conv(c) => padded(
            int_core(c.conv, v, c.prec, c.plus, c.space, c.hash),
            c.width,
            c.minus,
            c.zero,
        ),
    }
}

/// The pieces rendered one after the other.
pub open spec fn render(ps: Seq<Piece>, v: i64) -> Seq<char>
    decreases ps.len(),
{
    if ps.len() == 0 {
        seq![]
    } else {
        render(ps.drop_last(), v) + render_piece(ps.last(), v)
    }
}

/// What a format makes of an integer.
pub open spec fn formatted(fmt: Seq<char>, v: i64) -> Seq<char> {
    render(pieces(fmt), v)
}

/// Rendering a concatenation of pieces renders each part in turn.
proof fn lemma_render_concat(a: Seq<Piece>, b: Seq<Piece>, v: i64)
    ensures
        render(a + b, v) == render(a, v) + render(b, v),
    decreases b.len(),
{
    if b.len() == 0 {
        assert(a + b =~= a);
        assert(render(a, v) + render(b, v) =~= render(a, v));
    } else {
        lemma_render_concat(a, b.drop_last(), v);
        assert((a + b).drop_last() =~= a + b.drop_last());
        assert((a + b).last() == b.last());
        assert(render(a + b, v) =~= render(a, v) + render(b, v));
    }
}

proof fn lemma_plain_from(s: Seq<char>, i: int, v: i64)
    requires
        0 <= i <= s.len(),
        !s.contains('%'),
    ensures
        fits_from(s, i),
        render(pieces_from(s, i), v) == s.skip(i),
    decreases s.len() - i,
{
    if i < s.len() {
        assert(s[i] != '%');
        lemma_plain_from(s, i + 1, v);
        lemma_render_concat(seq![lit(s[i])], pieces_from(s, i + 1), v);
        assert(seq![lit(s[i])].drop_last() =~= Seq::<Piece>::empty());
        let one = seq![lit(s[i])];
        assert(one.last() == lit(s[i]));
        assert(render(one.drop_last(), v) =~= Seq::<char>::empty());
        assert(render_piece(lit(s[i]), v) =~= seq![s[i]]);
        assert(render(one, v) =~= seq![s[i]]);
        assert(s.skip(i) =~= seq![s[i]] + s.skip(i + 1));
    } else {
        assert(s.skip(i) =~= Seq::<char>::empty());
    }
}

/// A format without `%` is printed as it stands, whatever the value.
pub proof fn lemma_plain_format(s: Seq<char>, v: i64)
    requires
        !s.contains('%'),
    ensures
        format_fits(s),
        formatted(s, v) == s,
{
    lemma_plain_from(s, 0, v);
    assert(s.skip(0) =~= s);
}

// ---------------------------------------------------------------------------
// Reading a format

/// Whether `v[j]` exists and is an ASCII digit.
fn digit_at(v: &Vec<char>, j: usize) -> (b: bool)
    ensures
        v@.len() <= usize::MAX,
        b == (j < v@.len() && is_digit(v@[j as int])),
{
    if j < v.len() {
        let c = v[j] as u32;
        48 <= c && c <= 57
    } else {
        false
    }
}

/// Whether `v[j]` exists and is a flag.
fn flag_at(v: &Vec<char>, j: usize) -> (b: bool)
    ensures
        v@.len() <= usize::MAX,
        b == (j < v@.len() && is_flag(v@[j as int])),
{
    if j < v.len() {
        let c = v[j];
        c == '-' || c == '+' || c == ' ' || c == '0' || c == '#'
    } else {
        false
    }
}

/// Reads the run of digits at `a`: where it ends, and its value when that
/// fits a `usize`.
fn read_number(v: &Vec<char>, a: usize) -> (r: (usize, Option<usize>))
    requires
        a <= v@.len(),
    ensures
        r.0 as int == digits_end(v@, a as int),
        match r.1 {
            Some(n) => n as nat == digits_value(v@.subrange(a as int, r.0 as int)),
            None => digits_value(v@.subrange(a as int, r.0 as int)) > usize::MAX,
        },
{
    let mut j = a;
    let mut value: usize = 0;
    let mut over = false;
    assert(v@.subrange(a as int, a as int) =~= seq![]);
    let mut go = digit_at(v, j);
    while go
        invariant
            a <= j <= v@.len(),
            go == (j < v@.len() && is_digit(v@[j as int])),
            v@.len() <= usize::MAX,
            digits_end(v@, a as int) == digits_end(v@, j as int),
            !over ==> value as nat == digits_value(v@.subrange(a as int, j as int)),
            over ==> digits_value(v@.subrange(a as int, j as int)) > usize::MAX,
        decreases v@.len() - j,
    {
        let d: usize = (v[j] as u32 - 48) as usize;
        assert(v@.subrange(a as int, j + 1).drop_last() =~= v@.subrange(a as int, j as int));
        assert(v@.subrange(a as int, j + 1).last() == v@[j as int]);
        assert(digits_value(v@.subrange(a as int, j + 1)) == digits_value(
            v@.subrange(a as int, j as int),
        ) * 10 + d);
        if !over {
            if value > (usize::MAX - d) / 10 {
                assert(value * 10 + d > usize::MAX) by (nonlinear_arith)
                    requires
                        value > (usize::MAX - d) / 10,
                        d <= 9,
                ;
                over = true;
            } else {
                assert(value * 10 + d <= usize::MAX) by (nonlinear_arith)
                    requires
                        value <= (usize::MAX - d) / 10,
                        d <= 9,
                ;
                value = value * 10 + d;
            }
        }
        j = j + 1;
        go = digit_at(v, j);
    }
    if over {
        (j, None)
    } else {
        (j, Some(value))
    }
}

/// Extending a range by one character adds that character to what it
/// contains.
proof fn lemma_contains_step(s: Seq<char>, a: int, j: int, c: char)
    requires
        0 <= a <= j < s.len(),
    ensures
        s.subrange(a, j + 1).contains(c) == (s.subrange(a, j).contains(c) || s[j] == c),
{
    let t = s.subrange(a, j + 1);
    let u = s.subrange(a, j);
    if u.contains(c) {
        let k = choose|k: int| 0 <= k < u.len() && u[k] == c;
        assert(t[k] == c);
    }
    if s[j] == c {
        assert(t[j - a] == c);
    }
    if t.contains(c) {
        let k = choose|k: int| 0 <= k < t.len() && t[k] == c;
        if k < u.len() {
            assert(u[k] == c);
        }
    }
}

/// Reads the conversion whose flags start at `i`: `None` when its width or
/// precision does not fit a `usize`, else the conversion and the position
/// of its conversion character.
fn scan_conv(v: &Vec<char>, i: usize) -> (r: Option<(ConvSpec, usize)>)
    requires
        i <= v@.len(),
    ensures
        r is Some <==> numbers_fit(v@, i as int),
        r matches Some((c, p)) ==> p as int == conv_pos(v@, i as int) && (p < v@.len() ==> c
            == spec_at(v@, i as int)),
{
    proof {
        lemma_conv_pos(v@, i as int);
    }
    let mut minus = false;
    let mut plus = false;
    let mut space = false;
    let mut zero = false;
    let mut hash = false;
    let mut j = i;
    assert(v@.subrange(i as int, i as int) =~= seq![]);
    let mut go = flag_at(v, j);
    while go
        invariant
            i <= j <= v@.len(),
            go == (j < v@.len() && is_flag(v@[j as int])),
            v@.len() <= usize::MAX,
            flags_end(v@, i as int) == flags_end(v@, j as int),
            minus == v@.subrange(i as int, j as int).contains('-'),
            plus == v@.subrange(i as int, j as int).contains('+'),
            space == v@.subrange(i as int, j as int).contains(' '),
            zero == v@.subrange(i as int, j as int).contains('0'),
            hash == v@.subrange(i as int, j as int).contains('#'),
        decreases v@.len() - j,
    {
        let c = v[j];
        proof {
            lemma_contains_step(v@, i as int, j as int, '-');
            lemma_contains_step(v@, i as int, j as int, '+');
            lemma_contains_step(v@, i as int, j as int, ' ');
            lemma_contains_step(v@, i as int, j as int, '0');
            lemma_contains_step(v@, i as int, j as int, '#');
        }
        if c == '-' {
            minus = true;
        } else if c == '+' {
            plus = true;
        } else if c == ' ' {
            space = true;
        } else if c == '0' {
            zero = true;
        } else {
            hash = true;
        }
        j = j + 1;
        go = flag_at(v, j);
    }
    let (we, wv) = read_number(v, j);
    let width: Option<usize> = if we > j {
        match wv {
            Some(n) => Some(n),
            None => {
                return None;
            },
        }
    } else {
        None
    };
    let mut prec: Option<usize> = None;
    let mut pos = we;
    if we < v.len() && v[we] == '.' {
        let (pe, pv) = read_number(v, we + 1);
        match pv {
            Some(n) => {
                prec = Some(n);
            },
            None => {
                return None;
            },
        }
        pos = pe;
    }
    let conv = if pos < v.len() {
        v[pos]
    } else {
        ' '
    };
    let c = ConvSpec { minus, plus, space, zero, hash, width, prec, conv };
    Some((c, pos))
}

/// Reads a format into its pieces; `None` when a width or precision does
/// not fit a `usize`.
pub fn parse_format(fmt: &str) -> (r: Option<Vec<Piece>>)
    ensures
        r is Some <==> format_fits(fmt@),
        r matches Some(ps) ==> ps@ == pieces(fmt@),
{
    let v = chars_of(fmt);
    let mut out: Vec<Piece> = Vec::new();
    let mut i: usize = 0;
    assert(out@ + pieces_from(v@, 0) =~= pieces_from(v@, 0));
    while i < v.len()
        invariant
            i <= v@.len(),
            v@ == fmt@,
            pieces(v@) == out@ + pieces_from(v@, i as int),
            format_fits(v@) == fits_from(v@, i as int),
        decreases v@.len() - i,
    {
        let ghost before = out@;
        if v[i] != '%' {
            out.push(Piece::Lit(v[i]));
            assert(before + pieces_from(v@, i as int) =~= out@ + pieces_from(v@, i + 1));
            i = i + 1;
        } else if i + 1 >= v.len() {
            assert(before + pieces_from(v@, i as int) =~= out@ + pieces_from(v@, v@.len() as int));
            i = v.len();
        } else if v[i + 1] == '%' {
            out.push(Piece::Lit('%'));
            assert(before + pieces_from(v@, i as int) =~= out@ + pieces_from(v@, i + 2));
            i = i + 2;
        } else {
            proof {
                lemma_conv_pos(v@, i + 1);
            }
            match scan_conv(&v, i + 1) {
                None => {
                    return None;
                },
                Some((c, p)) => {
                    if p >= v.len() {
                        assert(before + pieces_from(v@, i as int) =~= out@ + pieces_from(
                            v@,
                            v@.len() as int,
                        ));
                        i = v.len();
                    } else {
                        out.push(Piece::Conv(c));
                        assert(before + pieces_from(v@, i as int) =~= out@ + pieces_from(
                            v@,
                            p + 1,
                        ));
                        i = p + 1;
                    }
                },
            }
        }
    }
    assert(out@ + pieces_from(v@, i as int) =~= out@);
    Some(out)
}

// ---------------------------------------------------------------------------
// Rendering

/// Appends `v[lo..hi]` to `out`.
fn push_range(out: &mut Vec<char>, v: &Vec<char>, lo: usize, hi: usize)
    requires
        lo <= hi <= v@.len(),
    ensures
        final(out)@ == old(out)@ + v@.subrange(lo as int, hi as int),
{
    let mut i = lo;
    while i < hi
        invariant
            lo <= i <= hi <= v@.len(),
            out@ == old(out)@ + v@.subrange(lo as int, i as int),
        decreases hi - i,
    {
        out.push(v[i]);
        assert(v@.subrange(lo as int, i + 1) =~= v@.subrange(lo as int, i as int).push(v@[i as int]));
        i = i + 1;
    }
}

/// Appends `n` copies of `c` to `out`.
fn push_repeat(out: &mut Vec<char>, c: char, n: usize)
    ensures
        final(out)@ == old(out)@ + Seq::new(n as nat, |k: int| c),
{
    let mut i: usize = 0;
    while i < n
        invariant
            i <= n,
            out@ == old(out)@ + Seq::new(i as nat, |k: int| c),
        decreases n - i,
    {
        out.push(c);
        assert(Seq::new((i + 1) as nat, |k: int| c) =~= Seq::new(i as nat, |k: int| c).push(c));
        i = i + 1;
    }
}

/// The number of sign characters that `v` begins with.
fn leading_signs(v: &Vec<char>) -> (n: usize)
    ensures
        n == sign_len(v@),
        n <= v@.len(),
{
    let mut k: usize = 0;
    assert(v@.skip(0) =~= v@);
    while k < v.len() && (v[k] == '-' || v[k] == '+' || v[k] == ' ')
        invariant
            k <= v@.len(),
            sign_len(v@) == k + sign_len(v@.skip(k as int)),
        decreases v@.len() - k,
    {
        assert(v@.skip(k as int).drop_first() =~= v@.skip(k + 1));
        k = k + 1;
    }
    k
}

/// The text of a conversion before signs, precision and width.
fn base_chars(conv: char, v: i64, hash: bool) -> (r: Vec<char>)
    ensures
        r@ == base_text(conv, v, hash),
{
    let u: u64 = if v < 0 {
        u64::MAX - ((-(v + 1)) as u64)
    } else {
        v as u64
    };
    assert(u as nat == unsigned_of(v));
    let mut r: Vec<char> = Vec::new();
    if conv == 'u' {
        push_digits(&mut r, u, 10, false);
    } else if conv == 'x' {
        if hash {
            r.push('0');
            r.push('x');
        }
        push_digits(&mut r, u, 16, false);
    } else if conv == 'X' {
        if hash {
            r.push('0');
            r.push('X');
        }
        push_digits(&mut r, u, 16, true);
    } else if conv == 'o' {
        if hash {
            r.push('0');
        }
        push_digits(&mut r, u, 8, false);
    } else if conv == 'c' {
        let b = (u % 256) as u8;
        r.push(b as char);
    } else if v < 0 {
        r.push('-');
        let m: u64 = ((-(v + 1)) as u64) + 1;
        assert(m as nat == (-v) as nat);
        push_digits(&mut r, m, 10, false);
    } else {
        push_digits(&mut r, v as u64, 10, false);
    }
    assert(r@ =~= base_text(conv, v, hash));
    r
}

/// A conversion of an integer, before the width.
fn int_core_chars(
    conv: char,
    v: i64,
    prec: Option<usize>,
    plus: bool,
    space: bool,
    hash: bool,
) -> (r: Vec<char>)
    ensures
        r@ == int_core(conv, v, prec, plus, space, hash),
{
    let base = base_chars(conv, v, hash);
    let mut core: Vec<char> = Vec::new();
    if v >= 0 && (conv == 'd' || conv == 'i') {
        if plus {
            core.push('+');
        } else if space {
            core.push(' ');
        }
    }
    push_range(&mut core, &base, 0, base.len());
    assert(base@.subrange(0, base@.len() as int) =~= base@);
    assert(core@ =~= signed_text(base@, conv, v, plus, space));
    match prec {
        Some(p) => {
            let sl = leading_signs(&core);
            let d = core.len() - sl;
            if p > d {
                let mut r: Vec<char> = Vec::new();
                push_range(&mut r, &core, 0, sl);
                push_repeat(&mut r, '0', p - d);
                push_range(&mut r, &core, sl, core.len());
                assert(Seq::new((p - d) as nat, |k: int| '0') =~= zeros((p - d) as nat));
                assert(core@.subrange(0, sl as int) =~= core@.take(sl as int));
                assert(core@.subrange(sl as int, core@.len() as int) =~= core@.skip(sl as int));
                r
            } else {
                core
            }
        },
        None => core,
    }
}

/// The width applied to a conversion's text.
fn pad_chars(core: &Vec<char>, width: Option<usize>, left: bool, zero: bool) -> (r: Vec<char>)
    ensures
        r@ == padded(core@, width, left, zero),
{
    let mut r: Vec<char> = Vec::new();
    let n = core.len();
    assert(core@.subrange(0, n as int) =~= core@);
    match width {
        Some(w) => {
            if w > n {
                let k = w - n;
                assert(Seq::new(k as nat, |j: int| '0') =~= zeros(k as nat));
                assert(Seq::new(k as nat, |j: int| ' ') =~= spaces(k as nat));
                if left {
                    push_range(&mut r, core, 0, n);
                    push_repeat(&mut r, ' ', k);
                } else if zero {
                    let sl = leading_signs(core);
                    push_range(&mut r, core, 0, sl);
                    push_repeat(&mut r, '0', k);
                    push_range(&mut r, core, sl, n);
                    assert(core@.subrange(0, sl as int) =~= core@.take(sl as int));
                    assert(core@.subrange(sl as int, n as int) =~= core@.skip(sl as int));
                } else {
                    push_repeat(&mut r, ' ', k);
                    push_range(&mut r, core, 0, n);
                }
            } else {
                push_range(&mut r, core, 0, n);
            }
        },
        None => {
            push_range(&mut r, core, 0, n);
        },
    }
    r
}

/// Renders an integer by one conversion, before the width: the digits (in
/// the base that `conv` asks for), the sign flags, and the precision.
pub fn int_conv(
    conv: char,
    v: i64,
    prec: Option<usize>,
    plus: bool,
    space: bool,
    hash: bool,
) -> (r: String)
    ensures
        r@ == int_core(conv, v, prec, plus, space, hash),
{
    let c = int_core_chars(conv, v, prec, plus, space, hash);
    string_of(&c)
}

/// Pads a rendered conversion to `width`: with spaces on the right when
/// `left`, with zeros after the sign when `zero`, else with spaces on the
/// left.
pub fn pad(core: &str, width: Option<usize>, left: bool, zero: bool) -> (r: String)
    ensures
        r@ == padded(core@, width, left, zero),
{
    let v = chars_of(core);
    let p = pad_chars(&v, width, left, zero);
    string_of(&p)
}

/// Renders an integer with a printf-style format.
pub fn apply_int(fmt: &str, v: i64) -> (r: String)
    requires
        format_fits(fmt@),
    ensures
        r@ == formatted(fmt@, v),
{
    let ps = match parse_format(fmt) {
        Some(ps) => ps,
        None => {
            return String::new();
        },
    };
    let mut out: Vec<char> = Vec::new();
    let mut k: usize = 0;
    while k < ps.len()
        invariant
            k <= ps@.len(),
            ps@ == pieces(fmt@),
            out@ == render(ps@.take(k as int), v),
        decreases ps@.len() - k,
    {
        let ghost before = out@;
        match ps[k] {
            Piece::Lit(c) => {
                out.push(c);
            },
            Piece::Conv(c) => {
                let core = int_core_chars(c.conv, v, c.prec, c.plus, c.space, c.hash);
                let p = pad_chars(&core, c.width, c.minus, c.zero);
                push_range(&mut out, &p, 0, p.len());
                assert(p@.subrange(0, p@.len() as int) =~= p@);
            },
        }
        assert(ps@.take(k + 1).drop_last() =~= ps@.take(k as int));
        assert(out@ =~= before + render_piece(ps@[k as int], v));
        k = k + 1;
    }
    assert(ps@.take(ps@.len() as int) =~= ps@);
    string_of(&out)
}

// ---------------------------------------------------------------------------
// Hexadecimal conversions

/// A hexadecimal digit in the given letter case: `0`-`9`, then `A`-`F` or
/// `a`-`f`.
pub open spec fn hex_char(c: char, upper: bool) -> bool {
    ||| ('0' <= c && c <= '9')
    ||| (upper && 'A' <= c && c <= 'F')
    ||| (!upper && 'a' <= c && c <= 'f')
}

/// The value of a hexadecimal digit of either letter case.
pub open spec fn hex_value(c: char) -> int {
    if c <= '9' {
        c as int - 48
    } else if c <= 'F' {
        c as int - 55
    } else {
        c as int - 87
    }
}

/// The number that a run of hexadecimal digits spells.
pub open spec fn hex_number(s: Seq<char>) -> int
    decreases s.len(),
{
    if s.len() == 0 {
        0
    } else {
        hex_number(s.drop_last()) * 16 + hex_value(s.last())
    }
}

proof fn lemma_hex_digit_char(m: nat, upper: bool)
    requires
        m < 16,
    ensures
        hex_char(digit_char(m, upper), upper),
        hex_value(digit_char(m, upper)) == m,
        m > 0 ==> digit_char(m, upper) != '0',
{
    let c = digit_char(m, upper);
    if m < 10 {
        assert(c as u32 == 48 + m);
    } else if upper {
        assert(c as u32 == 55 + m);
    } else {
        assert(c as u32 == 87 + m);
    }
}

/// The base-16 digits of `n` are hexadecimal digits in the chosen case,
/// without a leading zero, and spell `n`.
proof fn lemma_hex_digits(n: nat, upper: bool)
    ensures
        digits(n, 16, upper).len() > 0,
        forall|k: int|
            0 <= k < digits(n, 16, upper).len() ==> hex_char(
                #[trigger] digits(n, 16, upper)[k],
                upper,
            ),
        hex_number(digits(n, 16, upper)) == n,
        n > 0 ==> digits(n, 16, upper)[0] != '0',
    decreases n,
{
    let d = digits(n, 16, upper);
    lemma_hex_digit_char(n % 16, upper);
    let c = digit_char(n % 16, upper);
    if n >= 16 {
        let q = digits(n / 16, 16, upper);
        assert(n / 16 < n && n / 16 > 0) by (nonlinear_arith)
            requires
                n >= 16,
        ;
        lemma_hex_digits(n / 16, upper);
        assert(d == q.push(c));
        assert(d.drop_last() =~= q);
        assert forall|k: int| 0 <= k < d.len() implies hex_char(#[trigger] d[k], upper) by {
            if k < q.len() {
                assert(d[k] == q[k]);
            }
        }
        assert((n / 16) * 16 + n % 16 == n) by (nonlinear_arith);
        assert(d.last() == c);
        assert(hex_number(d) == hex_number(q) * 16 + hex_value(c));
        assert(d[0] == q[0]);
    } else {
        assert(n % 16 == n);
        assert(d == seq![c]);
        assert(d.drop_last() =~= Seq::<char>::empty());
        assert(d.last() == c);
        assert(hex_number(d) == hex_number(d.drop_last()) * 16 + hex_value(d.last()));
    }
}

/// `%X` and `%x` (without flags, precision or width) write the value, taken
/// as unsigned 64-bit, in hexadecimal: an optional `0X` / `0x` prefix with
/// `#`, then hexadecimal digits that spell the value, without a leading
/// zero, in upper case for `X` and lower case for `x`.
pub proof fn lemma_hex_conv(v: i64, hash: bool, upper: bool)
    ensures
        ({
            let t = int_core(
                if upper {
                    'X'
                } else {
                    'x'
                },
                v,
                None,
                false,
                false,
                hash,
            );
            let pre: Seq<char> = if !hash {
                seq![]
            } else if upper {
                seq!['0', 'X']
            } else {
                seq!['0', 'x']
            };
            let s = t.skip(pre.len() as int);
            &&& pre.is_prefix_of(t)
            &&& s.len() > 0
            &&& (s.len() == 1 || s[0] != '0')
            &&& forall|k: int| 0 <= k < s.len() ==> hex_char(#[trigger] s[k], upper)
            &&& hex_number(s) == unsigned_of(v)
        }),
{
    let u = unsigned_of(v);
    lemma_hex_digits(u, upper);
    let pre: Seq<char> = if !hash {
        seq![]
    } else if upper {
        seq!['0', 'X']
    } else {
        seq!['0', 'x']
    };
    let t = int_core(
        if upper {
            'X'
        } else {
            'x'
        },
        v,
        None,
        false,
        false,
        hash,
    );
    assert(t == pre + digits(u, 16, upper));
    assert(t.skip(pre.len() as int) =~= digits(u, 16, upper));
    assert(t.take(pre.len() as int) =~= pre);
}

/// No letter of the other case: `%X` writes no lower-case letter and `%x`
/// no upper-case one.
pub open spec fn one_case(s: Seq<char>, upper: bool) -> bool {
    forall|k: int| 0 <= k < s.len() ==> case_ok(#[trigger] s[k], upper)
}

/// A character that is not a letter of the other case.
pub open spec fn case_ok(c: char, upper: bool) -> bool {
    &&& upper ==> !('a' <= c && c <= 'z')
    &&& !upper ==> !('A' <= c && c <= 'Z')
}

/// Whatever the flags and precision, `%X` writes every letter in upper case
/// and `%x` every letter in lower case.
pub proof fn lemma_hex_case(
    v: i64,
    prec: Option<usize>,
    plus: bool,
    space: bool,
    hash: bool,
    upper: bool,
)
    ensures
        one_case(
            int_core(
                if upper {
                    'X'
                } else {
                    'x'
                },
                v,
                prec,
                plus,
                space,
                hash,
            ),
            upper,
        ),
{
    let u = unsigned_of(v);
    let conv = if upper {
        'X'
    } else {
        'x'
    };
    lemma_hex_digits(u, upper);
    let ds = digits(u, 16, upper);
    let pre: Seq<char> = if !hash {
        seq![]
    } else if upper {
        seq!['0', 'X']
    } else {
        seq!['0', 'x']
    };
    let base = base_text(conv, v, hash);
    assert(base == pre + ds);
    assert(signed_text(base, conv, v, plus, space) == base);
    assert(one_case(base, upper)) by {
        assert forall|k: int| 0 <= k < base.len() implies case_ok(#[trigger] base[k], upper) by {
            if k >= pre.len() {
                assert(base[k] == ds[k - pre.len()]);
                assert(hex_char(ds[k - pre.len()], upper));
            }
        }
    }
    assert(base.len() > 0 && !is_sign(base[0])) by {
        if pre.len() == 0 {
            assert(base[0] == ds[0]);
            assert(hex_char(ds[0], upper));
        }
    }
    assert(sign_len(base) == 0);
    let t = with_prec(base, prec);
    assert(one_case(t, upper)) by {
        match prec {
            Some(p) => {
                let d = base.len() - 0;
                if p > d {
                    let z = zeros((p - d) as nat);
                    assert(t == base.take(0) + z + base.skip(0));
                    assert(base.take(0) + z + base.skip(0) =~= z + base);
                    assert forall|k: int| 0 <= k < t.len() implies case_ok(#[trigger] t[k], upper) by {
                        if k < z.len() {
                            assert(t[k] == '0');
                        } else {
                            assert(t[k] == base[k - z.len()]);
                        }
                    }
                }
            },
            None => {},
        }
    }
}

/// The format made of one bare conversion, `%` and `c`, writes exactly that
/// conversion with no flags, width or precision.
proof fn lemma_bare_conv(c: char, v: i64)
    requires
        c == 'X' || c == 'x',
    ensures
        formatted(seq!['%', c], v) == int_core(c, v, None, false, false, false),
{
    let s = seq!['%', c];
    assert(s[0] == '%' && s[1] == c);
    assert(flags_end(s, 1) == 1);
    assert(digits_end(s, 1) == 1);
    assert(conv_pos(s, 1) == 1);
    assert(s.subrange(1, 1) =~= Seq::<char>::empty());
    let sp = spec_at(s, 1);
    assert(sp.conv == c);
    assert(!sp.minus && !sp.plus && !sp.space && !sp.zero && !sp.hash);
    assert(sp.width is None && sp.prec is None);
    assert(pieces_from(s, 2) =~= Seq::<Piece>::empty());
    let ps = pieces(s);
    assert(ps =~= seq![conv_piece(s, 1)]);
    assert(ps.drop_last() =~= Seq::<Piece>::empty());
    assert(render(ps.drop_last(), v) =~= Seq::<char>::empty());
    assert(render(ps, v) =~= render_piece(conv_piece(s, 1), v));
}

/// The formats `%X` and `%x` write a value, taken as unsigned 64-bit, as
/// hexadecimal digits that spell it, without a leading zero: `A`-`F` for
/// `%X` and `a`-`f` for `%x`. For example `%X` makes `FF` of 255.
pub proof fn lemma_percent_hex(v: i64, upper: bool)
    ensures
        ({
            let t = formatted(
                seq![
                    '%',
                    if upper {
                        'X'
                    } else {
                        'x'
                    },
                ],
                v,
            );
            &&& t.len() > 0
            &&& (t.len() == 1 || t[0] != '0')
            &&& forall|k: int| 0 <= k < t.len() ==> hex_char(#[trigger] t[k], upper)
            &&& hex_number(t) == unsigned_of(v)
        }),
{
    let c = if upper {
        'X'
    } else {
        'x'
    };
    lemma_bare_conv(c, v);
    lemma_hex_digits(unsigned_of(v), upper);
    let t = int_core(c, v, None, false, false, false);
    assert(t =~= seq![] + digits(unsigned_of(v), 16, upper));
    assert(t =~= digits(unsigned_of(v), 16, upper));
}

/// The number that a run of base-8 digits spells.
pub open spec fn octal_number(s: Seq<char>) -> int
    decreases s.len(),
{
    if s.len() == 0 {
        0
    } else {
        octal_number(s.drop_last()) * 8 + (s.last() as int - 48)
    }
}

/// The base-8 digits of `n` are `0`-`7`, without a leading zero, and spell
/// `n`.
proof fn lemma_octal_digits(n: nat)
    ensures
        digits(n, 8, false).len() > 0,
        forall|k: int|
            0 <= k < digits(n, 8, false).len() ==> '0' <= #[trigger] digits(n, 8, false)[k] && digits(
                n,
                8,
                false,
            )[k] <= '7',
        octal_number(digits(n, 8, false)) == n,
        n > 0 ==> digits(n, 8, false)[0] != '0',
    decreases n,
{
    let d = digits(n, 8, false);
    let c = digit_char(n % 8, false);
    assert(c as u32 == 48 + n % 8);
    if n >= 8 {
        let q = digits(n / 8, 8, false);
        assert(n / 8 < n && n / 8 > 0) by (nonlinear_arith)
            requires
                n >= 8,
        ;
        lemma_octal_digits(n / 8);
        assert(d == q.push(c));
        assert(d.drop_last() =~= q);
        assert forall|k: int| 0 <= k < d.len() implies '0' <= #[trigger] d[k] && d[k] <= '7' by {
            if k < q.len() {
                assert(d[k] == q[k]);
            }
        }
        assert((n / 8) * 8 + n % 8 == n) by (nonlinear_arith);
        assert(d.last() == c);
        assert(octal_number(d) == octal_number(q) * 8 + (c as int - 48));
        assert(d[0] == q[0]);
    } else {
        assert(n % 8 == n);
        assert(d == seq![c]);
        assert(d.drop_last() =~= Seq::<char>::empty());
        assert(d.last() == c);
        assert(octal_number(d) == octal_number(d.drop_last()) * 8 + (d.last() as int - 48));
    }
}

/// Without flags, width or precision: `%d` and `%i` write the value in
/// decimal, with `-` before a negative one; `%u` writes the value taken as
/// unsigned 64-bit in decimal; `%o` writes it in octal, with a leading `0`
/// under `#`. The digits spell the value and have no leading zero.
pub proof fn lemma_decimal_octal_conv(v: i64, hash: bool)
    ensures
        ({
            let t = int_core('d', v, None, false, false, hash);
            let m: int = if v < 0 {
                -v
            } else {
                v as int
            };
            let ds = if v < 0 {
                t.skip(1)
            } else {
                t
            };
            &&& (v < 0 ==> t.len() > 0 && t[0] == '-')
            &&& ds.len() > 0 && all_digits(ds) && digits_value(ds) == m
            &&& (ds.len() == 1 || ds[0] != '0')
        }),
        int_core('i', v, None, false, false, hash) == int_core('d', v, None, false, false, hash),
        ({
            let t = int_core('u', v, None, false, false, hash);
            &&& t.len() > 0 && all_digits(t) && digits_value(t) == unsigned_of(v)
            &&& (t.len() == 1 || t[0] != '0')
        }),
        ({
            let t = int_core('o', v, None, false, false, hash);
            let ds = if hash {
                t.skip(1)
            } else {
                t
            };
            &&& (hash ==> t.len() > 0 && t[0] == '0')
            &&& ds.len() > 0 && octal_number(ds) == unsigned_of(v)
            &&& (ds.len() == 1 || ds[0] != '0')
            &&& forall|k: int| 0 <= k < ds.len() ==> '0' <= #[trigger] ds[k] && ds[k] <= '7'
        }),
{
    let m: nat = if v < 0 {
        (-v) as nat
    } else {
        v as nat
    };
    crate::num::lemma_decimal(m);
    crate::num::lemma_decimal(unsigned_of(v));
    lemma_decimal_no_lead(m);
    lemma_decimal_no_lead(unsigned_of(v));
    let t = int_core('d', v, None, false, false, hash);
    if v < 0 {
        assert(t == seq!['-'] + decimal(m));
        assert(t.skip(1) =~= decimal(m));
    } else {
        assert(t == decimal(m));
    }
    let u = unsigned_of(v);
    lemma_octal_digits(u);
    let to = int_core('o', v, None, false, false, hash);
    if hash {
        assert(to == seq!['0'] + digits(u, 8, false));
        assert(to.skip(1) =~= digits(u, 8, false));
    } else {
        assert(to == seq![] + digits(u, 8, false));
        assert(to =~= digits(u, 8, false));
    }
}

/// The decimal form of a number has no leading zero.
proof fn lemma_decimal_no_lead(n: nat)
    ensures
        decimal(n).len() == 1 || decimal(n)[0] != '0',
        n > 0 ==> decimal(n)[0] != '0',
    decreases n,
{
    crate::num::lemma_decimal(n);
    if n >= 10 {
        assert(n / 10 < n && n / 10 > 0) by (nonlinear_arith)
            requires
                n >= 10,
        ;
        lemma_decimal_no_lead(n / 10);
        crate::num::lemma_decimal(n / 10);
        let q = decimal(n / 10);
        assert(decimal(n) == q.push(digit_char(n % 10, false)));
        assert(decimal(n)[0] == q[0]);
    } else {
        assert(decimal(n) == seq![digit_char(n, false)]);
        assert(decimal(n)[0] as u32 == 48 + n);
    }
}

/// The `+` flag puts `+` before a non-negative `%d` / `%i` value and the
/// space flag a space (when `+` is not given); neither changes a negative
/// value or another conversion.
pub proof fn lemma_sign_flags(conv: char, v: i64, prec: Option<usize>, hash: bool)
    ensures
        ({
            let plain = int_core(conv, v, None, false, false, hash);
            &&& int_core(conv, v, None, true, false, hash) == (if v >= 0 && (conv == 'd' || conv
                == 'i') {
                seq!['+'] + plain
            } else {
                plain
            })
            &&& int_core(conv, v, None, false, true, hash) == (if v >= 0 && (conv == 'd' || conv
                == 'i') {
                seq![' '] + plain
            } else {
                plain
            })
            &&& int_core(conv, v, None, true, true, hash) == int_core(conv, v, None, true, false, hash)
        }),
{
}

/// The leading signs of a text lie within it.
proof fn lemma_sign_len_le(s: Seq<char>)
    ensures
        sign_len(s) <= s.len(),
    decreases s.len(),
{
    if s.len() > 0 && is_sign(s[0]) {
        lemma_sign_len_le(s.drop_first());
    }
}

/// The width: a text narrower than the width is filled up to exactly that
/// width, with spaces after it (`-`), with zeros after its leading signs
/// (`0`), or with spaces before it; a text as wide or wider is left as it is.
pub proof fn lemma_width(core: Seq<char>, w: usize, left: bool, zero: bool)
    ensures
        ({
            let t = padded(core, Some(w), left, zero);
            let n = w - core.len();
            let sl = sign_len(core);
            &&& w <= core.len() ==> t == core
            &&& w > core.len() ==> t.len() == w
            &&& w > core.len() && left ==> core.is_prefix_of(t) && forall|k: int|
                core.len() <= k < w ==> #[trigger] t[k] == ' '
            &&& w > core.len() && !left && !zero ==> t.skip(n) == core && forall|k: int|
                0 <= k < n ==> #[trigger] t[k] == ' '
            &&& w > core.len() && !left && zero ==> t.take(sl as int) == core.take(
                sl as int,
            ) && t.skip(sl + n) == core.skip(sl as int) && forall|k: int|
                sl <= k < sl + n ==> #[trigger] t[k] == '0'
        }),
        padded(core, None, left, zero) == core,
{
    let t = padded(core, Some(w), left, zero);
    lemma_sign_len_le(core);
    if w > core.len() {
        let n = (w - core.len()) as nat;
        if left {
            assert(t == core + spaces(n));
            assert(t.take(core.len() as int) =~= core);
            assert forall|k: int| core.len() <= k < w implies #[trigger] t[k] == ' ' by {
                assert(t[k] == spaces(n)[k - core.len()]);
            }
        } else if zero {
            let sl = sign_len(core) as int;
            if sl <= core.len() {
                assert(t == core.take(sl) + zeros(n) + core.skip(sl));
                assert(t.take(sl) =~= core.take(sl));
                assert(t.skip(sl + n) =~= core.skip(sl));
                assert forall|k: int| sl <= k < sl + n implies #[trigger] t[k] == '0' by {
                    assert(t[k] == zeros(n)[k - sl]);
                }
            }
        } else {
            assert(t == spaces(n) + core);
            assert(t.skip(n as int) =~= core);
            assert forall|k: int| 0 <= k < n implies #[trigger] t[k] == ' ' by {
                assert(t[k] == spaces(n)[k]);
            }
        }
    }
}

/// The precision: the signs stay in front, then the digits are filled with
/// zeros in front up to at least the precision; the digits themselves
/// follow unchanged. Without a precision nothing changes.
pub proof fn lemma_precision(core: Seq<char>, p: usize)
    ensures
        ({
            let t = with_prec(core, Some(p));
            let sl = sign_len(core) as int;
            let d = core.len() - sl;
            let body = t.skip(sl);
            &&& t.take(sl) == core.take(sl)
            &&& body.len() == (if p > d {
                p as int
            } else {
                d
            })
            &&& core.skip(sl).is_suffix_of(body)
            &&& forall|k: int| 0 <= k < body.len() - d ==> #[trigger] body[k] == '0'
        }),
        with_prec(core, None) == core,
{
    lemma_sign_len_le(core);
    let t = with_prec(core, Some(p));
    let sl = sign_len(core) as int;
    let d = core.len() - sl;
    if p > d {
        let z = zeros((p - d) as nat);
        assert(t == core.take(sl) + z + core.skip(sl));
        assert(t.take(sl) =~= core.take(sl));
        assert(t.skip(sl) =~= z + core.skip(sl));
        let body = t.skip(sl);
        assert(body.skip(z.len() as int) =~= core.skip(sl));
        assert forall|k: int| 0 <= k < body.len() - d implies #[trigger] body[k] == '0' by {
            assert(body[k] == z[k]);
        }
    } else {
        assert(t.skip(sl).skip(0) =~= core.skip(sl));
    }
}

} // verus!
