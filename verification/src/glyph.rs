//! Pure pieces of the glyph assembly: layer-name codepoint parsing, the
//! subfamily weight table, horizontal trimming metrics, and per-glyph
//! path statistics.

use vstd::prelude::*;

verus! {

use crate::edge::Point;
use crate::grid::fg;

/// `b` is an ASCII hexadecimal digit.
pub open spec fn is_hex_digit(b: u8) -> bool {
    (48 <= b <= 57) || (97 <= b <= 102) || (65 <= b <= 70)
}

/// Value of one ASCII hexadecimal digit.
pub open spec fn hex_val(b: u8) -> int {
    if 48 <= b <= 57 {
        b - 48
    } else if 97 <= b <= 102 {
        b - 87
    } else if 65 <= b <= 70 {
        b - 55
    } else {
        0
    }
}

/// Length of the run of hexadecimal digits starting at `from`.
pub open spec fn hex_prefix_len(s: Seq<u8>, from: int) -> int
    decreases s.len() - from,
{
    if 0 <= from < s.len() && is_hex_digit(s[from]) {
        1 + hex_prefix_len(s, from + 1)
    } else {
        0
    }
}

/// Value of the `k` hexadecimal digits starting at `from`.
pub open spec fn hex_value(s: Seq<u8>, from: int, k: int) -> int
    decreases k,
{
    if k <= 0 {
        0
    } else {
        hex_value(s, from, k - 1) * 16 + hex_val(s[from + k - 1])
    }
}

/// The codepoint encoded by a layer name: `U+` or `u+` followed by at
/// least one hexadecimal digit; digits beyond the hexadecimal prefix are
/// ignored; a value over `u32::MAX` does not parse.
pub open spec fn parse_codepoint_spec(s: Seq<u8>) -> Option<u32> {
    if s.len() >= 2 && (s[0] == 85 || s[0] == 117) && s[1] == 43 {
        let k = hex_prefix_len(s, 2);
        if k == 0 {
            None
        } else if hex_value(s, 2, k) > 0xFFFF_FFFF {
            None
        } else {
            Some(hex_value(s, 2, k) as u32)
        }
    } else {
        None
    }
}

/// A hexadecimal value only grows as digits are appended.
proof fn lemma_hex_value_grows(s: Seq<u8>, from: int, k: int)
    requires
        0 <= k,
    ensures
        hex_value(s, from, k) >= 0,
        hex_value(s, from, k + 1) >= hex_value(s, from, k),
    decreases k,
{
    if k > 0 {
        lemma_hex_value_grows(s, from, k - 1);
        assert(hex_value(s, from, k) == hex_value(s, from, k - 1) * 16 + hex_val(s[from + k - 1]));
        assert(hex_value(s, from, k - 1) * 16 >= hex_value(s, from, k - 1)) by (nonlinear_arith)
            requires
                hex_value(s, from, k - 1) >= 0,
        ;
        assert(hex_value(s, from, k) * 16 >= hex_value(s, from, k)) by (nonlinear_arith)
            requires
                hex_value(s, from, k) >= 0,
        ;
    }
}

/// A run of digits followed by a non-digit (or the end) pins the prefix
/// length.
proof fn lemma_hex_prefix_exact(s: Seq<u8>, from: int, k: int)
    requires
        0 <= from,
        from + k <= s.len(),
        0 <= k,
        forall|t: int| from <= t < from + k ==> is_hex_digit(#[trigger] s[t]),
        from + k == s.len() || !is_hex_digit(s[from + k]),
    ensures
        hex_prefix_len(s, from) == k,
    decreases k,
{
    if k > 0 {
        lemma_hex_prefix_exact(s, from + 1, k - 1);
    }
}

/// Parse a layer name of the shape `U+<hex>` into its base codepoint.
///
/// Returns the value of the longest hexadecimal-digit prefix after the
/// `U+` (or `u+`) marker, or nothing when the marker is missing, no digit
/// follows it, or the value does not fit 32 bits.
pub fn parse_codepoint(name: &[u8]) -> (code: Option<u32>)
    ensures
        code == parse_codepoint_spec(name@),
{
    if name.len() < 2 {
        return None;
    }
    if !(name[0] == 85 || name[0] == 117) {
        return None;
    }
    if name[1] != 43 {
        return None;
    }
    let mut i: usize = 2;
    let mut val: u64 = 0;
    let mut over = false;
    loop
        invariant
            2 <= i <= name@.len(),
            name@.len() >= 2,
            forall|t: int| 2 <= t < i ==> is_hex_digit(#[trigger] name@[t]),
            !over ==> val == hex_value(name@, 2, i - 2) && val <= 0xFFFF_FFFF,
            over ==> hex_value(name@, 2, i - 2) > 0xFFFF_FFFF,
        ensures
            2 <= i <= name@.len(),
            forall|t: int| 2 <= t < i ==> is_hex_digit(#[trigger] name@[t]),
            i == name@.len() || !is_hex_digit(name@[i as int]),
            !over ==> val == hex_value(name@, 2, i - 2) && val <= 0xFFFF_FFFF,
            over ==> hex_value(name@, 2, i - 2) > 0xFFFF_FFFF,
        decreases name@.len() - i,
    {
        if i >= name.len() {
            break ;
        }
        let b = name[i];
        let d: u64 = if 48 <= b && b <= 57 {
            (b - 48) as u64
        } else if 97 <= b && b <= 102 {
            (b - 87) as u64
        } else if 65 <= b && b <= 70 {
            (b - 55) as u64
        } else {
            break ;
        };
        proof {
            assert(is_hex_digit(name@[i as int]));
            assert(d == hex_val(name@[i as int]));
            lemma_hex_value_grows(name@, 2, i - 2);
        }
        if !over {
            val = val * 16 + d;
            if val > 0xFFFF_FFFF {
                over = true;
            }
        } else {
            proof {
                assert(hex_value(name@, 2, i - 1) >= hex_value(name@, 2, i - 2));
            }
        }
        i = i + 1;
    }
    proof {
        lemma_hex_prefix_exact(name@, 2, i - 2);
    }
    if i == 2 {
        None
    } else if over {
        None
    } else {
        Some(val as u32)
    }
}

/// The two byte slices hold the same bytes.
fn bytes_eq(a: &[u8], b: &[u8]) -> (r: bool)
    ensures
        r == (a@ == b@),
{
    if a.len() != b.len() {
        return false;
    }
    let mut i: usize = 0;
    while i < a.len()
        invariant
            i <= a@.len(),
            a@.len() == b@.len(),
            forall|t: int| 0 <= t < i ==> a@[t] == b@[t],
        decreases a@.len() - i,
    {
        if a[i] != b[i] {
            return false;
        }
        i = i + 1;
    }
    proof {
        assert(a@ =~= b@);
    }
    true
}

/// The bytes of "thin".
pub open spec fn kw_thin() -> Seq<u8> {
    seq![116u8, 104, 105, 110]
}

/// The bytes of "extra-light".
pub open spec fn kw_extra_light() -> Seq<u8> {
    seq![101u8, 120, 116, 114, 97, 45, 108, 105, 103, 104, 116]
}

/// The bytes of "extralight".
pub open spec fn kw_extralight() -> Seq<u8> {
    seq![101u8, 120, 116, 114, 97, 108, 105, 103, 104, 116]
}

/// The bytes of "ultra-light".
pub open spec fn kw_ultra_light() -> Seq<u8> {
    seq![117u8, 108, 116, 114, 97, 45, 108, 105, 103, 104, 116]
}

/// The bytes of "ultralight".
pub open spec fn kw_ultralight() -> Seq<u8> {
    seq![117u8, 108, 116, 114, 97, 108, 105, 103, 104, 116]
}

/// The bytes of "light".
pub open spec fn kw_light() -> Seq<u8> {
    seq![108u8, 105, 103, 104, 116]
}

/// The bytes of "regular".
pub open spec fn kw_regular() -> Seq<u8> {
    seq![114u8, 101, 103, 117, 108, 97, 114]
}

/// The bytes of "medium".
pub open spec fn kw_medium() -> Seq<u8> {
    seq![109u8, 101, 100, 105, 117, 109]
}

/// The bytes of "semibold".
pub open spec fn kw_semibold() -> Seq<u8> {
    seq![115u8, 101, 109, 105, 98, 111, 108, 100]
}

/// The bytes of "semi-bold".
pub open spec fn kw_semi_bold() -> Seq<u8> {
    seq![115u8, 101, 109, 105, 45, 98, 111, 108, 100]
}

/// The bytes of "demi-bold".
pub open spec fn kw_demi_bold() -> Seq<u8> {
    seq![100u8, 101, 109, 105, 45, 98, 111, 108, 100]
}

/// The bytes of "demibold".
pub open spec fn kw_demibold() -> Seq<u8> {
    seq![100u8, 101, 109, 105, 98, 111, 108, 100]
}

/// The bytes of "bold".
pub open spec fn kw_bold() -> Seq<u8> {
    seq![98u8, 111, 108, 100]
}

/// The bytes of "extrabold".
pub open spec fn kw_extrabold() -> Seq<u8> {
    seq![101u8, 120, 116, 114, 97, 98, 111, 108, 100]
}

/// The bytes of "extra-bold".
pub open spec fn kw_extra_bold() -> Seq<u8> {
    seq![101u8, 120, 116, 114, 97, 45, 98, 111, 108, 100]
}

/// The bytes of "ultrabold".
pub open spec fn kw_ultrabold() -> Seq<u8> {
    seq![117u8, 108, 116, 114, 97, 98, 111, 108, 100]
}

/// The bytes of "ultra-bold".
pub open spec fn kw_ultra_bold() -> Seq<u8> {
    seq![117u8, 108, 116, 114, 97, 45, 98, 111, 108, 100]
}

/// The bytes of "black".
pub open spec fn kw_black() -> Seq<u8> {
    seq![98u8, 108, 97, 99, 107]
}

/// The bytes of "heavy".
pub open spec fn kw_heavy() -> Seq<u8> {
    seq![104u8, 101, 97, 118, 121]
}

/// The OS/2 weight class named by a lower-cased subfamily string.
pub open spec fn weight_class_spec(s: Seq<u8>) -> u16 {
    if s == kw_thin() {
        100
    } else if s == kw_extra_light() || s == kw_extralight() || s == kw_ultra_light() || s == kw_ultralight() {
        200
    } else if s == kw_light() {
        300
    } else if s == kw_regular() {
        400
    } else if s == kw_medium() {
        500
    } else if s == kw_semibold() || s == kw_semi_bold() || s == kw_demi_bold() || s == kw_demibold() {
        600
    } else if s == kw_bold() {
        700
    } else if s == kw_extrabold() || s == kw_extra_bold() || s == kw_ultrabold() || s == kw_ultra_bold() {
        800
    } else if s == kw_black() || s == kw_heavy() {
        900
    } else {
        400
    }
}

/// Map a lower-cased subfamily name to its OS/2 weight class; unknown
/// names weigh 400 (regular).
pub fn weight_class(subfamily: &[u8]) -> (weight: u16)
    ensures
        weight == weight_class_spec(subfamily@),
{
    let kw: Vec<u8> = vec![116u8, 104, 105, 110]; // "thin"
    proof {
        assert(kw@ =~= kw_thin());
    }
    if bytes_eq(subfamily, kw.as_slice()) {
        return 100;
    }
    let kw: Vec<u8> = vec![101u8, 120, 116, 114, 97, 45, 108, 105, 103, 104, 116]; // "extra-light"
    proof {
        assert(kw@ =~= kw_extra_light());
    }
    if bytes_eq(subfamily, kw.as_slice()) {
        return 200;
    }
    let kw: Vec<u8> = vec![101u8, 120, 116, 114, 97, 108, 105, 103, 104, 116]; // "extralight"
    proof {
        assert(kw@ =~= kw_extralight());
    }
    if bytes_eq(subfamily, kw.as_slice()) {
        return 200;
    }
    let kw: Vec<u8> = vec![117u8, 108, 116, 114, 97, 45, 108, 105, 103, 104, 116]; // "ultra-light"
    proof {
        assert(kw@ =~= kw_ultra_light());
    }
    if bytes_eq(subfamily, kw.as_slice()) {
        return 200;
    }
    let kw: Vec<u8> = vec![117u8, 108, 116, 114, 97, 108, 105, 103, 104, 116]; // "ultralight"
    proof {
        assert(kw@ =~= kw_ultralight());
    }
    if bytes_eq(subfamily, kw.as_slice()) {
        return 200;
    }
    let kw: Vec<u8> = vec![108u8, 105, 103, 104, 116]; // "light"
    proof {
        assert(kw@ =~= kw_light());
    }
    if bytes_eq(subfamily, kw.as_slice()) {
        return 300;
    }
    let kw: Vec<u8> = vec![114u8, 101, 103, 117, 108, 97, 114]; // "regular"
    proof {
        assert(kw@ =~= kw_regular());
    }
    if bytes_eq(subfamily, kw.as_slice()) {
        return 400;
    }
    let kw: Vec<u8> = vec![109u8, 101, 100, 105, 117, 109]; // "medium"
    proof {
        assert(kw@ =~= kw_medium());
    }
    if bytes_eq(subfamily, kw.as_slice()) {
        return 500;
    }
    let kw: Vec<u8> = vec![115u8, 101, 109, 105, 98, 111, 108, 100]; // "semibold"
    proof {
        assert(kw@ =~= kw_semibold());
    }
    if bytes_eq(subfamily, kw.as_slice()) {
        return 600;
    }
    let kw: Vec<u8> = vec![115u8, 101, 109, 105, 45, 98, 111, 108, 100]; // "semi-bold"
    proof {
        assert(kw@ =~= kw_semi_bold());
    }
    if bytes_eq(subfamily, kw.as_slice()) {
        return 600;
    }
    let kw: Vec<u8> = vec![100u8, 101, 109, 105, 45, 98, 111, 108, 100]; // "demi-bold"
    proof {
        assert(kw@ =~= kw_demi_bold());
    }
    if bytes_eq(subfamily, kw.as_slice()) {
        return 600;
    }
    let kw: Vec<u8> = vec![100u8, 101, 109, 105, 98, 111, 108, 100]; // "demibold"
    proof {
        assert(kw@ =~= kw_demibold());
    }
    if bytes_eq(subfamily, kw.as_slice()) {
        return 600;
    }
    let kw: Vec<u8> = vec![98u8, 111, 108, 100]; // "bold"
    proof {
        assert(kw@ =~= kw_bold());
    }
    if bytes_eq(subfamily, kw.as_slice()) {
        return 700;
    }
    let kw: Vec<u8> = vec![101u8, 120, 116, 114, 97, 98, 111, 108, 100]; // "extrabold"
    proof {
        assert(kw@ =~= kw_extrabold());
    }
    if bytes_eq(subfamily, kw.as_slice()) {
        return 800;
    }
    let kw: Vec<u8> = vec![101u8, 120, 116, 114, 97, 45, 98, 111, 108, 100]; // "extra-bold"
    proof {
        assert(kw@ =~= kw_extra_bold());
    }
    if bytes_eq(subfamily, kw.as_slice()) {
        return 800;
    }
    let kw: Vec<u8> = vec![117u8, 108, 116, 114, 97, 98, 111, 108, 100]; // "ultrabold"
    proof {
        assert(kw@ =~= kw_ultrabold());
    }
    if bytes_eq(subfamily, kw.as_slice()) {
        return 800;
    }
    let kw: Vec<u8> = vec![117u8, 108, 116, 114, 97, 45, 98, 111, 108, 100]; // "ultra-bold"
    proof {
        assert(kw@ =~= kw_ultra_bold());
    }
    if bytes_eq(subfamily, kw.as_slice()) {
        return 800;
    }
    let kw: Vec<u8> = vec![98u8, 108, 97, 99, 107]; // "black"
    proof {
        assert(kw@ =~= kw_black());
    }
    if bytes_eq(subfamily, kw.as_slice()) {
        return 900;
    }
    let kw: Vec<u8> = vec![104u8, 101, 97, 118, 121]; // "heavy"
    proof {
        assert(kw@ =~= kw_heavy());
    }
    if bytes_eq(subfamily, kw.as_slice()) {
        return 900;
    }
    400
}

/// Column `x` of the grid holds at least one foreground cell.
pub open spec fn col_has_fg(cells: Seq<u8>, width: usize, x: int) -> bool {
    exists|c: int| #[trigger] fg(cells, c) && c % (width as int) == x
}

/// The leftmost and rightmost grid columns holding foreground, if any
/// foreground exists.  Used for horizontal-metrics trimming.
pub fn fg_column_range(cells: &Vec<u8>, width: usize, height: usize) -> (r: Option<(usize, usize)>)
    requires
        cells@.len() == (width as int) * (height as int),
    ensures
        match r {
            None => forall|c: int| 0 <= c < cells@.len() ==> !fg(cells@, c),
            Some((lo, hi)) => col_has_fg(cells@, width, lo as int) && col_has_fg(
                cells@,
                width,
                hi as int,
            ) && forall|c: int|
                #[trigger] fg(cells@, c) ==> lo as int <= c % (width as int) <= hi as int,
        },
{
    let n = cells.len();
    let mut have = false;
    let mut lo: usize = 0;
    let mut hi: usize = 0;
    let mut c: usize = 0;
    while c < n
        invariant
            n == cells@.len(),
            cells@.len() == (width as int) * (height as int),
            c <= n,
            !have ==> forall|t: int| 0 <= t < c ==> !fg(cells@, t),
            have ==> col_has_fg(cells@, width, lo as int) && col_has_fg(cells@, width, hi as int)
                && lo <= hi,
            have ==> forall|t: int|
                0 <= t < c && #[trigger] fg(cells@, t) ==> lo as int <= t % (width as int)
                    <= hi as int,
        decreases n - c,
    {
        if cells[c] > 0 {
            proof {
                if width == 0 {
                    assert(cells@.len() == 0int * (height as int)) by (nonlinear_arith)
                        requires
                            cells@.len() == (width as int) * (height as int),
                            width == 0,
                    ;
                }
            }
            let x = c % width;
            proof {
                assert(fg(cells@, c as int) && (c as int) % (width as int) == x as int);
            }
            if !have {
                have = true;
                lo = x;
                hi = x;
            } else {
                if x < lo {
                    lo = x;
                }
                if x > hi {
                    hi = x;
                }
            }
        }
        c = c + 1;
    }
    if have {
        Some((lo, hi))
    } else {
        None
    }
}

/// The larger of the two glyph cell dimensions.
pub open spec fn cell_size(gw: int, gh: int) -> int {
    if gw >= gh {
        gw
    } else {
        gh
    }
}

/// The advance width the trimming rule gives a glyph, before scaling:
/// the trimmed column span plus padding, stretched by the cell aspect
/// step, or the full cell width when trimming is off.
pub open spec fn advance_spec(
    trim: bool,
    trim_pad: int,
    cols: Option<(int, int)>,
    gw: int,
    gh: int,
) -> int {
    if !trim {
        gw
    } else {
        let span = match cols {
            None => 0,
            Some((lo, hi)) => hi - lo + 1 + trim_pad,
        };
        span * (cell_size(gw, gh) / gw)
    }
}

/// Advance width and left side bearing of one glyph, scaled.
///
/// With trimming on, the advance covers the foreground columns plus
/// padding, scaled by the cell aspect step; with trimming off it is the
/// full cell width.  The left side bearing is the leftmost foreground
/// column in either case.
pub fn glyph_metric(
    trim: bool,
    trim_pad: u32,
    cols: Option<(u32, u32)>,
    glyph_width: u32,
    glyph_height: u32,
    scale: u32,
) -> (r: (u32, u32))
    requires
        glyph_width > 0,
        cols matches Some((lo, hi)) ==> lo <= hi && (hi as int) < glyph_width,
        advance_spec(
            trim,
            trim_pad as int,
            match cols {
                None => None,
                Some((lo, hi)) => Some((lo as int, hi as int)),
            },
            glyph_width as int,
            glyph_height as int,
        ) <= u32::MAX,
        advance_spec(
            trim,
            trim_pad as int,
            match cols {
                None => None,
                Some((lo, hi)) => Some((lo as int, hi as int)),
            },
            glyph_width as int,
            glyph_height as int,
        ) * (scale as int) <= u32::MAX,
        (glyph_width as int) * (scale as int) <= u32::MAX,
    ensures
        r.0 as int == advance_spec(
            trim,
            trim_pad as int,
            match cols {
                None => None,
                Some((lo, hi)) => Some((lo as int, hi as int)),
            },
            glyph_width as int,
            glyph_height as int,
        ) * (scale as int),
        r.1 as int == (match cols {
            None => 0int,
            Some((lo, hi)) => lo as int,
        }) * (scale as int),
{
    let size = if glyph_width >= glyph_height {
        glyph_width
    } else {
        glyph_height
    };
    let lo = match cols {
        None => 0,
        Some((l, _)) => l,
    };
    proof {
        // The bearing is bounded by the full cell advance.
        assert((lo as int) * (scale as int) <= (glyph_width as int) * (scale as int))
            by (nonlinear_arith)
            requires
                0 <= lo as int <= glyph_width as int,
                0 <= scale as int,
        ;
    }
    if trim {
        proof {
            let gw = glyph_width as int;
            let gh = glyph_height as int;
            let span_i: int = match cols {
                None => 0,
                Some((l, h)) => h - l + 1 + trim_pad,
            };
            // One cell step at least: size >= gw, so size / gw >= 1 and
            // the span is bounded by the advance, which fits.
            assert(cell_size(gw, gh) / gw >= 1) by {
                assert(gw / gw == 1) by (nonlinear_arith)
                    requires
                        gw > 0,
                ;
                if cell_size(gw, gh) > gw {
                    vstd::arithmetic::div_mod::lemma_div_is_ordered(gw, cell_size(gw, gh), gw);
                }
            }
            assert(span_i * 1 <= span_i * (cell_size(gw, gh) / gw)) by (nonlinear_arith)
                requires
                    0 <= span_i,
                    1 <= cell_size(gw, gh) / gw,
            ;
        }
        let span: u32 = match cols {
            None => 0,
            Some((l, h)) => h - l + 1 + trim_pad,
        };
        let stretched = span * (size / glyph_width);
        (stretched * scale, lo * scale)
    } else {
        (glyph_width * scale, lo * scale)
    }
}

/// Number of outline points a path list contributes: every point of each
/// nonempty path except its opening move.
pub open spec fn points_to(ps: Seq<Seq<Point>>, k: int) -> int
    decreases k,
{
    if k <= 0 {
        0
    } else {
        points_to(ps, k - 1) + if ps[k - 1].len() > 0 {
            ps[k - 1].len() - 1
        } else {
            0
        }
    }
}

/// Number of contours a path list contributes: its nonempty paths.
pub open spec fn contours_to(ps: Seq<Seq<Point>>, k: int) -> int
    decreases k,
{
    if k <= 0 {
        0
    } else {
        contours_to(ps, k - 1) + if ps[k - 1].len() > 0 {
            1int
        } else {
            0int
        }
    }
}

/// Count the outline points and contours of one glyph's paths: each
/// nonempty path is one contour and contributes its length less one (the
/// opening move) points.  A glyph with zero points is skipped entirely by
/// the caller.
pub fn path_stats(paths: &Vec<Vec<Point>>) -> (r: (usize, usize))
    requires
        points_to(crate::winding::path_views(paths@), paths@.len() as int) <= usize::MAX,
    ensures
        r.0 == points_to(crate::winding::path_views(paths@), paths@.len() as int),
        r.1 == contours_to(crate::winding::path_views(paths@), paths@.len() as int),
{
    let ghost ps = crate::winding::path_views(paths@);
    let mut points: usize = 0;
    let mut contours: usize = 0;
    let mut i: usize = 0;
    while i < paths.len()
        invariant
            ps == crate::winding::path_views(paths@),
            i <= paths@.len(),
            points == points_to(ps, i as int),
            contours == contours_to(ps, i as int),
            contours <= i,
            points_to(ps, paths@.len() as int) <= usize::MAX,
        decreases paths@.len() - i,
    {
        let len = paths[i].len();
        if len > 0 {
            proof {
                lemma_points_to_mono(ps, i as int + 1, paths@.len() as int);
            }
            points = points + (len - 1);
            contours = contours + 1;
        }
        i = i + 1;
    }
    (points, contours)
}

/// The point count only grows with more paths.
proof fn lemma_points_to_mono(ps: Seq<Seq<Point>>, k1: int, k2: int)
    requires
        0 <= k1 <= k2,
    ensures
        points_to(ps, k1) <= points_to(ps, k2),
        points_to(ps, k1) >= 0,
    decreases k2 - k1,
{
    if k1 < k2 {
        lemma_points_to_mono(ps, k1, k2 - 1);
    }
    lemma_points_to_nonneg(ps, k1);
}

proof fn lemma_points_to_nonneg(ps: Seq<Seq<Point>>, k: int)
    ensures
        points_to(ps, k) >= 0,
    decreases k,
{
    if k > 0 {
        lemma_points_to_nonneg(ps, k - 1);
    }
}

} // verus!
