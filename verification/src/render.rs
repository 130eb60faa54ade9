//! Rendering of the illuminated lunar disc as a character grid.
//!
//! A grid of `size` rows by `2 * size` columns samples a unit sphere in
//! orthographic projection at cell centers. With the grid scaled by
//! `2 * size`, the cell at row j, column i has screen coordinates
//! `x = x_num / (2 size)` and `y = y_num / (2 size)` with odd `x_num`, so no
//! sample ever falls exactly on the disc boundary. A cell outside the disc
//! shows the empty character; a cell on the disc is lit exactly when
//! `sx * x + sz * z < 0`, where (sx, sz) is the sunlight direction derived
//! from the phase and `z = sqrt(1 - x^2 - y^2)` is the height of the sphere
//! at the sample. That sign is decided exactly in integers by squaring.

use vstd::prelude::*;
use crate::date::CalendarDate;
use crate::phase::PHASE_ONE;
use crate::phase::julian_day_nanos_spec;
use crate::phase::moon_phase;
use crate::phase::phase_nanos_spec;
use crate::trig::HALF_TURN;
use crate::trig::TRIG_ONE;
use crate::trig::cos_e9;
use crate::trig::cos_e9_exec;
use crate::trig::lemma_trig_turning_points;
use crate::trig::sin_e9;
use crate::trig::sin_e9_exec;
use vstd::string::StringExecFns;

verus! {

/// Horizontal component of the sunlight direction for a phase fraction,
/// scaled by `TRIG_ONE`. The sign is flipped for the northern hemisphere so
/// that the waxing moon is lit on the right.
pub open spec fn sun_x(northern: bool, p: int) -> int {
    if northern {
        -sin_e9(p)
    } else {
        sin_e9(p)
    }
}

/// Depth component of the sunlight direction for a phase fraction, scaled by
/// `TRIG_ONE`.
pub open spec fn sun_z(p: int) -> int {
    cos_e9(p)
}

/// Numerator of the x coordinate of the center of column i, over the common
/// denominator `2 * size`. Always odd.
pub open spec fn x_num(size: int, i: int) -> int {
    2 * i + 1 - 2 * size
}

/// Numerator of the y coordinate of the center of row j, over the common
/// denominator `2 * size`. Always even.
pub open spec fn y_num(size: int, j: int) -> int {
    4 * j + 2 - 2 * size
}

/// Squared distance of the sample from the disc center, scaled by
/// `(2 size)^2`.
pub open spec fn r2_num(size: int, j: int, i: int) -> int {
    x_num(size, i) * x_num(size, i) + y_num(size, j) * y_num(size, j)
}

/// Whether the sample of the cell lies on the disc.
pub open spec fn in_disc(size: int, j: int, i: int) -> bool {
    r2_num(size, j, i) <= 4 * size * size
}

/// Squared height of the sphere above the sample, scaled by `(2 size)^2`:
/// `(2 size)^2 - r2`.
pub open spec fn depth_num(size: int, j: int, i: int) -> int {
    4 * size * size - r2_num(size, j, i)
}

/// Whether a disc sample is illuminated: the exact sign of
/// `sx * xn + sz * sqrt(q)` for q >= 0, decided by case analysis and
/// squaring; the cell is lit exactly when that value is negative.
pub open spec fn is_lit(sx: int, sz: int, xn: int, q: int) -> bool {
    let l = sx * xn;
    if sz >= 0 {
        l < 0 && sz * sz * q < l * l
    } else if l <= 0 {
        l < 0 || q > 0
    } else {
        l * l < sz * sz * q
    }
}

/// The character of the cell at row j, column i.
pub open spec fn cell_char(
    size: int,
    sx: int,
    sz: int,
    j: int,
    i: int,
    light_char: char,
    dark_char: char,
    empty_char: char,
) -> char {
    if !in_disc(size, j, i) {
        empty_char
    } else if is_lit(sx, sz, x_num(size, i), depth_num(size, j, i)) {
        light_char
    } else {
        dark_char
    }
}

/// The characters of row j: `2 * size` cells.
pub open spec fn row_chars(
    size: int,
    sx: int,
    sz: int,
    j: int,
    light_char: char,
    dark_char: char,
    empty_char: char,
) -> Seq<char> {
    Seq::new((2 * size) as nat, |i: int| cell_char(size, sx, sz, j, i, light_char, dark_char, empty_char))
}

/// The first `rows` rows of the grid, joined by single newlines, with no
/// trailing newline.
pub open spec fn grid_upto(
    size: int,
    sx: int,
    sz: int,
    rows: int,
    light_char: char,
    dark_char: char,
    empty_char: char,
) -> Seq<char>
    decreases rows,
{
    if rows <= 0 {
        Seq::empty()
    } else if rows == 1 {
        row_chars(size, sx, sz, 0, light_char, dark_char, empty_char)
    } else {
        grid_upto(size, sx, sz, rows - 1, light_char, dark_char, empty_char) + seq!['\n']
            + row_chars(size, sx, sz, rows - 1, light_char, dark_char, empty_char)
    }
}

/// The whole rendered grid: `size` rows joined by single newlines.
pub open spec fn grid_chars(
    size: int,
    sx: int,
    sz: int,
    light_char: char,
    dark_char: char,
    empty_char: char,
) -> Seq<char> {
    grid_upto(size, sx, sz, size, light_char, dark_char, empty_char)
}

/// Relies on String::push: appends the given character to the end of the
/// string.
#[verifier::external_body]
fn push_char(s: &mut String, c: char)
    ensures
        final(s)@ == old(s)@.push(c),
{
    s.push(c);
}

/// The supported sizes: the rendered text, `2 size^2 + size - 1` characters,
/// must be addressable.
pub open spec fn size_in_range(size: int) -> bool {
    2 * size * size + size <= usize::MAX as int + 1
}

/// The character of one cell, computed in 128-bit integers.
fn cell_for(
    size: usize,
    sx: i64,
    sz: i64,
    j: usize,
    i: usize,
    light_char: char,
    dark_char: char,
    empty_char: char,
) -> (c: char)
    requires
        2 <= size,
        size_in_range(size as int),
        (j as int) < size as int,
        (i as int) < 2 * (size as int),
        -TRIG_ONE <= sx <= TRIG_ONE,
        -TRIG_ONE <= sz <= TRIG_ONE,
    ensures
        c == cell_char(
            size as int,
            sx as int,
            sz as int,
            j as int,
            i as int,
            light_char,
            dark_char,
            empty_char,
        ),
{
    let s: i128 = size as i128;
    proof {
        assert(s <= 3_100_000_000) by (nonlinear_arith)
            requires
                2 * s * s + s <= usize::MAX as int + 1,
                usize::MAX as int + 1 <= 18446744073709551616,
                s >= 2,
        ;
    }
    let xn: i128 = 2 * (i as i128) + 1 - 2 * s;
    let yn: i128 = 4 * (j as i128) + 2 - 2 * s;
    proof {
        assert(-2 * s <= xn <= 2 * s);
        assert(-2 * s <= yn <= 2 * s);
        assert(xn * xn <= 4 * s * s && yn * yn <= 4 * s * s && xn * xn >= 0 && yn * yn >= 0
            && 4 * s * s <= 40_000_000_000_000_000_000) by (nonlinear_arith)
            requires
                -2 * s <= xn <= 2 * s,
                -2 * s <= yn <= 2 * s,
                2 <= s <= 3_100_000_000,
        ;
    }
    let r2: i128 = xn * xn + yn * yn;
    let lim: i128 = 4 * s * s;
    if r2 > lim {
        proof {
            assert(!in_disc(size as int, j as int, i as int));
        }
        empty_char
    } else {
        let q: i128 = lim - r2;
        proof {
            assert(-7_000_000_000_000_000_000 <= (sx as i128) * xn <= 7_000_000_000_000_000_000)
                by (nonlinear_arith)
                requires
                    -1_000_000_000 <= sx as i128 <= 1_000_000_000,
                    -7_000_000_000 <= xn <= 7_000_000_000,
            ;
        }
        let l: i128 = (sx as i128) * xn;
        proof {
            assert(0 <= l * l <= 49_000_000_000_000_000_000_000_000_000_000_000_000)
                by (nonlinear_arith)
                requires
                    -7_000_000_000_000_000_000 <= l <= 7_000_000_000_000_000_000,
            ;
            assert(0 <= (sz as i128) * (sz as i128) <= 1_000_000_000_000_000_000)
                by (nonlinear_arith)
                requires
                    -1_000_000_000 <= sz as i128 <= 1_000_000_000,
            ;
        }
        let ll: i128 = l * l;
        let sz2: i128 = (sz as i128) * (sz as i128);
        proof {
            assert(0 <= sz2 * q <= 80_000_000_000_000_000_000_000_000_000_000_000_000)
                by (nonlinear_arith)
                requires
                    0 <= sz2 <= 1_000_000_000_000_000_000,
                    0 <= q <= 40_000_000_000_000_000_000,
            ;
        }
        let szq: i128 = sz2 * q;
        let lit: bool = if sz >= 0 {
            l < 0 && szq < ll
        } else if l <= 0 {
            l < 0 || q > 0
        } else {
            ll < szq
        };
        proof {
            assert(in_disc(size as int, j as int, i as int));
            assert(q as int == depth_num(size as int, j as int, i as int));
            assert(lit == is_lit(sx as int, sz as int, x_num(size as int, i as int), q as int));
        }
        if lit {
            light_char
        } else {
            dark_char
        }
    }
}

/// Render the disc for an explicit phase fraction in [0, PHASE_ONE]
/// (both ends denote the new moon), with the given grid height and
/// characters for lit, dark and off-disc cells. The width is `2 * size`.
/// Fails when the size is below 2 or the phase is out of range.
pub fn render_moon_with_phase(
    size: usize,
    northern_hemisphere: bool,
    phase_nanos: i64,
    light_char: char,
    dark_char: char,
    empty_char: char,
) -> (r: Result<String, String>)
    requires
        size_in_range(size as int),
    ensures
        r is Ok <==> (size >= 2 && 0 <= phase_nanos <= PHASE_ONE),
        r matches Ok(out) ==> out@ == grid_chars(
            size as int,
            sun_x(northern_hemisphere, phase_nanos as int),
            sun_z(phase_nanos as int),
            light_char,
            dark_char,
            empty_char,
        ),
        size < 2 ==> (r matches Err(msg) && msg@ == "size must be at least 2"@),
        size >= 2 && !(0 <= phase_nanos <= PHASE_ONE) ==> (r matches Err(msg) && msg@
            == "phase must be in [0.0, 1.0]"@),
{
    if size < 2 {
        return Err(String::from_str("size must be at least 2"));
    }
    if phase_nanos < 0 || phase_nanos > PHASE_ONE {
        return Err(String::from_str("phase must be in [0.0, 1.0]"));
    }
    let sin_val: i64 = sin_e9_exec(phase_nanos);
    let sx: i64 = if northern_hemisphere {
        -sin_val
    } else {
        sin_val
    };
    let sz: i64 = cos_e9_exec(phase_nanos);
    let ghost gsx = sx as int;
    let ghost gsz = sz as int;
    proof {
        assert(2 * (size as int) <= usize::MAX as int) by (nonlinear_arith)
            requires
                2 * (size as int) * (size as int) + size as int <= usize::MAX as int + 1,
                2 <= size as int,
        ;
    }
    let width: usize = 2 * size;
    let mut out: String = String::new();
    let mut j: usize = 0;
    while j < size
        invariant
            size_in_range(size as int),
            2 <= size,
            width == 2 * size,
            j <= size,
            -TRIG_ONE <= sx <= TRIG_ONE,
            -TRIG_ONE <= sz <= TRIG_ONE,
            gsx == sx as int,
            gsz == sz as int,
            out@ == grid_upto(size as int, gsx, gsz, j as int, light_char, dark_char, empty_char),
        decreases size - j,
    {
        if j > 0 {
            push_char(&mut out, '\n');
        }
        let ghost base = out@;
        let mut i: usize = 0;
        while i < width
            invariant
                size_in_range(size as int),
                2 <= size,
                width == 2 * size,
                j < size,
                i <= width,
                -TRIG_ONE <= sx <= TRIG_ONE,
                -TRIG_ONE <= sz <= TRIG_ONE,
                gsx == sx as int,
                gsz == sz as int,
                out@ == base + row_chars(
                    size as int,
                    gsx,
                    gsz,
                    j as int,
                    light_char,
                    dark_char,
                    empty_char,
                ).take(i as int),
            decreases width - i,
        {
            let c = cell_for(size, sx, sz, j, i, light_char, dark_char, empty_char);
            push_char(&mut out, c);
            proof {
                let row = row_chars(
                    size as int,
                    gsx,
                    gsz,
                    j as int,
                    light_char,
                    dark_char,
                    empty_char,
                );
                assert(row.take(i as int + 1) =~= row.take(i as int).push(row[i as int]));
            }
            i = i + 1;
        }
        proof {
            let row = row_chars(size as int, gsx, gsz, j as int, light_char, dark_char, empty_char);
            assert(row.take(width as int) =~= row);
            if j == 0 {
                assert(out@ == grid_upto(
                    size as int,
                    gsx,
                    gsz,
                    1,
                    light_char,
                    dark_char,
                    empty_char,
                ));
            } else {
                assert(out@ == grid_upto(
                    size as int,
                    gsx,
                    gsz,
                    j as int + 1,
                    light_char,
                    dark_char,
                    empty_char,
                ));
            }
        }
        j = j + 1;
    }
    Ok(out)
}

/// Render the disc for a valid calendar date at noon UTC. Fails exactly when
/// the size is below 2.
pub fn render_moon(
    size: usize,
    northern_hemisphere: bool,
    date: CalendarDate,
    light_char: char,
    dark_char: char,
    empty_char: char,
) -> (r: Result<String, String>)
    requires
        date.valid(),
        size_in_range(size as int),
    ensures
        r is Ok <==> size >= 2,
        r matches Ok(out) ==> out@ == grid_chars(
            size as int,
            sun_x(
                northern_hemisphere,
                phase_nanos_spec(julian_day_nanos_spec(date.year as int, date.month as int, date.day as int)),
            ),
            sun_z(phase_nanos_spec(julian_day_nanos_spec(date.year as int, date.month as int, date.day as int))),
            light_char,
            dark_char,
            empty_char,
        ),
        size < 2 ==> (r matches Err(msg) && msg@ == "size must be at least 2"@),
{
    let p = moon_phase(date);
    render_moon_with_phase(size, northern_hemisphere, p, light_char, dark_char, empty_char)
}

/// A disc sample never lies exactly on the rim: inside the disc the squared
/// height of the sphere is at least 1, because the x numerator is odd while
/// the squared radius bound is a multiple of 4.
pub proof fn lemma_depth_positive(size: int, j: int, i: int)
    requires
        in_disc(size, j, i),
    ensures
        depth_num(size, j, i) >= 1,
{
    let k = i - size;
    let m = 2 * j + 1 - size;
    let xn = x_num(size, i);
    let yn = y_num(size, j);
    let r2 = r2_num(size, j, i);
    assert(r2 == 4 * (k * k + k + m * m) + 1) by (nonlinear_arith)
        requires
            xn == 2 * k + 1,
            yn == 2 * m,
            r2 == xn * xn + yn * yn,
    ;
    let a = k * k + k + m * m;
    let b = size * size;
    assert(4 * size * size == 4 * b) by (nonlinear_arith)
        requires
            b == size * size,
    ;
    assert(4 * a + 1 <= 4 * b);
    assert(a < b);
    assert(depth_num(size, j, i) == 4 * b - (4 * a + 1));
}

/// New moon and the full cycle render identically: phase 0 and phase
/// `PHASE_ONE` give the same grid, for every size, hemisphere and character
/// choice.
pub proof fn lemma_phase_wraparound(
    size: int,
    northern: bool,
    light_char: char,
    dark_char: char,
    empty_char: char,
)
    ensures
        grid_chars(size, sun_x(northern, 0), sun_z(0), light_char, dark_char, empty_char)
            == grid_chars(
            size,
            sun_x(northern, PHASE_ONE as int),
            sun_z(PHASE_ONE as int),
            light_char,
            dark_char,
            empty_char,
        ),
{
    lemma_trig_turning_points();
}

/// At the full moon (phase one half) every cell on the disc is the light
/// character, in either hemisphere; none is the dark character.
pub proof fn lemma_full_moon_disc_lit(
    size: int,
    northern: bool,
    light_char: char,
    dark_char: char,
    empty_char: char,
)
    ensures
        forall|j: int, i: int|
            in_disc(size, j, i) ==> #[trigger] cell_char(
                size,
                sun_x(northern, HALF_TURN as int),
                sun_z(HALF_TURN as int),
                j,
                i,
                light_char,
                dark_char,
                empty_char,
            ) == light_char,
{
    lemma_trig_turning_points();
    let sx = sun_x(northern, HALF_TURN as int);
    let sz = sun_z(HALF_TURN as int);
    assert(sx == 0);
    assert(sz == -TRIG_ONE);
    assert forall|j: int, i: int| in_disc(size, j, i) implies #[trigger] cell_char(
        size,
        sx,
        sz,
        j,
        i,
        light_char,
        dark_char,
        empty_char,
    ) == light_char by {
        lemma_depth_positive(size, j, i);
        let xn = x_num(size, i);
        let q = depth_num(size, j, i);
        assert(sx * xn == 0) by (nonlinear_arith)
            requires
                sx == 0,
        ;
        assert(is_lit(sx, sz, xn, q));
    }
}

/// At the new moon (phase zero) every cell on the disc is the dark
/// character, in either hemisphere; none is the light character.
pub proof fn lemma_new_moon_disc_dark(
    size: int,
    northern: bool,
    light_char: char,
    dark_char: char,
    empty_char: char,
)
    ensures
        forall|j: int, i: int|
            in_disc(size, j, i) ==> #[trigger] cell_char(
                size,
                sun_x(northern, 0),
                sun_z(0),
                j,
                i,
                light_char,
                dark_char,
                empty_char,
            ) == dark_char,
{
    lemma_trig_turning_points();
    let sx = sun_x(northern, 0);
    let sz = sun_z(0);
    assert(sx == 0);
    assert(sz == TRIG_ONE);
    assert forall|j: int, i: int| in_disc(size, j, i) implies #[trigger] cell_char(
        size,
        sx,
        sz,
        j,
        i,
        light_char,
        dark_char,
        empty_char,
    ) == dark_char by {
        let xn = x_num(size, i);
        let q = depth_num(size, j, i);
        assert(sx * xn == 0) by (nonlinear_arith)
            requires
                sx == 0,
        ;
        assert(!is_lit(sx, sz, xn, q));
    }
}

/// Rendering under the two hemispheres mirrors the grid horizontally: for
/// any phase, the cell at column i under the northern hemisphere equals the
/// cell at column `2 size - 1 - i` under the southern one, row by row.
pub proof fn lemma_hemisphere_mirror(size: int, p: int, j: int, i: int,
    light_char: char,
    dark_char: char,
    empty_char: char,
)
    ensures
        cell_char(size, sun_x(true, p), sun_z(p), j, i, light_char, dark_char, empty_char)
            == cell_char(
            size,
            sun_x(false, p),
            sun_z(p),
            j,
            2 * size - 1 - i,
            light_char,
            dark_char,
            empty_char,
        ),
{
    let i2 = 2 * size - 1 - i;
    let xn = x_num(size, i);
    let xn2 = x_num(size, i2);
    assert(xn2 == -xn);
    let sn = sin_e9(p);
    let sz = sun_z(p);
    assert(xn2 * xn2 == xn * xn) by (nonlinear_arith)
        requires
            xn2 == -xn,
    ;
    assert(r2_num(size, j, i2) == r2_num(size, j, i));
    assert((-sn) * xn == sn * xn2 && ((-sn) * xn) * ((-sn) * xn) == (sn * xn2) * (sn * xn2))
        by (nonlinear_arith)
        requires
            xn2 == -xn,
    ;
    assert(is_lit(-sn, sz, xn, depth_num(size, j, i)) == is_lit(
        sn,
        sz,
        xn2,
        depth_num(size, j, i2),
    ));
}

/// The length of a prefix of the grid.
proof fn lemma_grid_upto_len(
    size: int,
    sx: int,
    sz: int,
    rows: int,
    light_char: char,
    dark_char: char,
    empty_char: char,
)
    requires
        1 <= size,
        0 <= rows <= size,
    ensures
        rows == 0 ==> grid_upto(size, sx, sz, rows, light_char, dark_char, empty_char).len() == 0,
        rows >= 1 ==> grid_upto(size, sx, sz, rows, light_char, dark_char, empty_char).len()
            == rows * (2 * size + 1) - 1,
    decreases rows,
{
    if rows >= 1 {
        lemma_grid_upto_len(size, sx, sz, rows - 1, light_char, dark_char, empty_char);
        assert(rows * (2 * size + 1) == (rows - 1) * (2 * size + 1) + (2 * size + 1))
            by (nonlinear_arith)
        ;
        if rows == 1 {
            assert(grid_upto(size, sx, sz, 1, light_char, dark_char, empty_char).len()
                == 2 * size);
        }
    }
}

/// Structure of a grid prefix: each of its rows in place, separated by
/// single newlines.
proof fn lemma_grid_upto_structure(
    size: int,
    sx: int,
    sz: int,
    rows: int,
    light_char: char,
    dark_char: char,
    empty_char: char,
)
    requires
        1 <= size,
        1 <= rows <= size,
    ensures
        grid_upto(size, sx, sz, rows, light_char, dark_char, empty_char).len()
            == rows * (2 * size + 1) - 1,
        forall|j: int|
            0 <= j < rows ==> grid_upto(size, sx, sz, rows, light_char, dark_char, empty_char)
                .subrange(j * (2 * size + 1), j * (2 * size + 1) + 2 * size)
                =~= #[trigger] row_chars(size, sx, sz, j, light_char, dark_char, empty_char),
        forall|j: int|
            0 <= j < rows - 1 ==> #[trigger] grid_upto(
                size,
                sx,
                sz,
                rows,
                light_char,
                dark_char,
                empty_char,
            )[j * (2 * size + 1) + 2 * size] == '\n',
    decreases rows,
{
    let w = 2 * size + 1;
    lemma_grid_upto_len(size, sx, sz, rows, light_char, dark_char, empty_char);
    let g = grid_upto(size, sx, sz, rows, light_char, dark_char, empty_char);
    if rows == 1 {
        assert(g =~= row_chars(size, sx, sz, 0, light_char, dark_char, empty_char));
        assert forall|j: int| 0 <= j < 1 implies g.subrange(j * w, j * w + 2 * size)
            =~= #[trigger] row_chars(size, sx, sz, j, light_char, dark_char, empty_char) by {
            assert(j == 0);
            assert(j * w == 0);
            assert(g.subrange(0, 2 * size) =~= g);
        }
    } else {
        lemma_grid_upto_structure(size, sx, sz, rows - 1, light_char, dark_char, empty_char);
        lemma_grid_upto_len(size, sx, sz, rows - 1, light_char, dark_char, empty_char);
        let gp = grid_upto(size, sx, sz, rows - 1, light_char, dark_char, empty_char);
        let row = row_chars(size, sx, sz, rows - 1, light_char, dark_char, empty_char);
        let lp = (rows - 1) * w - 1;
        assert(g == gp + seq!['\n'] + row);
        assert(gp.len() == lp);
        assert forall|j: int| 0 <= j < rows implies g.subrange(j * w, j * w + 2 * size)
            =~= #[trigger] row_chars(size, sx, sz, j, light_char, dark_char, empty_char) by {
            assert(0 <= j * w && j * w + 2 * size <= rows * w - 1) by (nonlinear_arith)
                requires
                    0 <= j < rows,
                    w == 2 * size + 1,
                    size >= 1,
            ;
            if j < rows - 1 {
                assert(j * w + 2 * size <= lp) by (nonlinear_arith)
                    requires
                        0 <= j < rows - 1,
                        w == 2 * size + 1,
                        lp == (rows - 1) * w - 1,
                        size >= 1,
                ;
                let rj = row_chars(size, sx, sz, j, light_char, dark_char, empty_char);
                assert(gp.subrange(j * w, j * w + 2 * size) =~= rj);
                assert forall|k: int| 0 <= k < 2 * size implies g[j * w + k] == rj[k] by {
                    assert(g[j * w + k] == gp[j * w + k]);
                    assert(gp[j * w + k] == gp.subrange(j * w, j * w + 2 * size)[k]);
                }
            } else {
                assert(j == rows - 1);
                assert(j * w == lp + 1) by (nonlinear_arith)
                    requires
                        j == rows - 1,
                        w == 2 * size + 1,
                        lp == (rows - 1) * w - 1,
                ;
                assert forall|k: int| 0 <= k < 2 * size implies g[j * w + k] == row[k] by {
                    assert(g[lp + 1 + k] == row[k]);
                }
            }
        }
        assert forall|j: int| 0 <= j < rows - 1 implies #[trigger] g[j * w + 2 * size] == '\n' by {
            if j < rows - 2 {
                assert(j * w + 2 * size < lp) by (nonlinear_arith)
                    requires
                        0 <= j < rows - 2,
                        w == 2 * size + 1,
                        lp == (rows - 1) * w - 1,
                        size >= 1,
                ;
                assert(g[j * w + 2 * size] == gp[j * w + 2 * size]);
            } else {
                assert(j == rows - 2);
                assert(j * w + 2 * size == lp) by (nonlinear_arith)
                    requires
                        j == rows - 2,
                        w == 2 * size + 1,
                        lp == (rows - 1) * w - 1,
                ;
                assert(g[lp] == '\n');
            }
        }
    }
}


/// The rendered grid has exactly `size` rows of `2 size` cells each, joined
/// by single newlines and with no trailing newline: the text is
/// `2 size^2 + size - 1` characters long, row j occupies positions
/// `j (2 size + 1)` through `j (2 size + 1) + 2 size`, and the character
/// after each row but the last is a newline.
pub proof fn lemma_grid_dimensions(
    size: int,
    sx: int,
    sz: int,
    light_char: char,
    dark_char: char,
    empty_char: char,
)
    requires
        1 <= size,
    ensures
        grid_chars(size, sx, sz, light_char, dark_char, empty_char).len()
            == 2 * size * size + size - 1,
        forall|j: int|
            0 <= j < size ==> grid_chars(size, sx, sz, light_char, dark_char, empty_char)
                .subrange(j * (2 * size + 1), j * (2 * size + 1) + 2 * size)
                =~= #[trigger] row_chars(size, sx, sz, j, light_char, dark_char, empty_char),
        forall|j: int|
            0 <= j < size - 1 ==> #[trigger] grid_chars(
                size,
                sx,
                sz,
                light_char,
                dark_char,
                empty_char,
            )[j * (2 * size + 1) + 2 * size] == '\n',
{
    lemma_grid_upto_structure(size, sx, sz, size, light_char, dark_char, empty_char);
    assert(size * (2 * size + 1) - 1 == 2 * size * size + size - 1) by (nonlinear_arith);
}

} // verus!
