use vstd::prelude::*;

use crate::ui_state::{ProcessRow, UIState};

verus! {

/// The number of bar levels.
pub const CHART_MAX_TICKS: u64 = 8;

/// A colour as its red, green and blue channels.
#[derive(Clone, Copy, Debug, PartialEq, Eq, Structural)]
pub struct Rgb {
    pub r: u8,
    pub g: u8,
    pub b: u8,
}

/// One bar of a history chart: its level, from 1 to `CHART_MAX_TICKS`, and its colour.
#[derive(Clone, Copy, Debug, PartialEq, Eq, Structural)]
pub struct ChartBar {
    pub value: u64,
    pub color: Rgb,
}

/// The colour of the lowest bar level.
pub open spec fn chart_color_start() -> Rgb {
    Rgb { r: 0, g: 195, b: 255 }
}

/// The colour of the highest bar level.
pub open spec fn chart_color_end() -> Rgb {
    Rgb { r: 170, g: 70, b: 255 }
}

/// `s + (e - s) * n / d`, rounded to the nearest integer.
pub open spec fn lerp_channel(s: int, e: int, n: int, d: int) -> int {
    (2 * (s * d + (e - s) * n) + d) / (2 * d)
}

/// The colour at `n / d` of the way from the start colour to the end colour, with the
/// ratio clamped to at most 1.
pub open spec fn gradient(n: int, d: int) -> Rgb {
    let m = if n < d {
        n
    } else {
        d
    };
    Rgb {
        r: lerp_channel(chart_color_start().r as int, chart_color_end().r as int, m, d) as u8,
        g: lerp_channel(chart_color_start().g as int, chart_color_end().g as int, m, d) as u8,
        b: lerp_channel(chart_color_start().b as int, chart_color_end().b as int, m, d) as u8,
    }
}

/// The level of a bar for `sample` when the chart's scale is `basis` plus 10% headroom
/// (or 1 where `basis` is 0): `ceil(7 * min(sample / scale, 1))`, clamped to `1..=8`.
pub open spec fn bar_level(sample: int, basis: int) -> int {
    let n = if basis > 0 {
        10 * sample
    } else {
        sample
    };
    let d = if basis > 0 {
        11 * basis
    } else {
        1
    };
    let r = if n < d {
        n
    } else {
        d
    };
    let t = (7 * r + d - 1) / d;
    if t < 1 {
        1
    } else if t > 8 {
        8
    } else {
        t
    }
}

/// A sample as the chart reads it: saturated at `u64::MAX`.
pub open spec fn saturated(v: u128) -> int {
    if v > u64::MAX {
        u64::MAX as int
    } else {
        v as int
    }
}

/// The largest element, or 0 for an empty sequence.
pub open spec fn seq_max(s: Seq<u128>) -> int
    decreases s.len(),
{
    if s.len() == 0 {
        0
    } else {
        let m = seq_max(s.drop_last());
        if s.last() > m {
            s.last() as int
        } else {
            m
        }
    }
}

/// The largest saturated element, or 0 for an empty sequence.
pub open spec fn saturated_max(s: Seq<u128>) -> int
    decreases s.len(),
{
    if s.len() == 0 {
        0
    } else {
        let m = saturated_max(s.drop_last());
        if saturated(s.last()) > m {
            saturated(s.last())
        } else {
            m
        }
    }
}

/// The largest sample in one direction over the histories of all rows.
pub open spec fn rows_max(rows: Seq<ProcessRow>, upload: bool) -> int
    decreases rows.len(),
{
    if rows.len() == 0 {
        0
    } else {
        let m = rows_max(rows.drop_last(), upload);
        let h = if upload {
            seq_max(rows.last().upload_history@)
        } else {
            seq_max(rows.last().download_history@)
        };
        if h > m {
            h
        } else {
            m
        }
    }
}

/// The last `target_len` samples of `h`, with zeros in front where `h` is shorter.
pub open spec fn window(h: Seq<u128>, target_len: int) -> Seq<u128> {
    if h.len() >= target_len {
        h.subrange(h.len() - target_len, h.len() as int)
    } else {
        Seq::new((target_len - h.len()) as nat, |i: int| 0u128) + h
    }
}

/// The scale basis of a chart: the maximum across rows where it is positive, else the
/// chart's own maximum.
pub open spec fn scale_basis(w: Seq<u128>, global_max: u128) -> int {
    if global_max > 0 {
        global_max as int
    } else {
        saturated_max(w)
    }
}

proof fn lemma_lerp_bounds(s: int, e: int, n: int, d: int)
    requires
        0 <= s <= 255,
        0 <= e <= 255,
        0 <= n <= d,
        d > 0,
    ensures
        0 <= lerp_channel(s, e, n, d) <= 255,
{
    let x = s * d + (e - s) * n;
    assert(0 <= x <= 255 * d) by (nonlinear_arith)
        requires
            0 <= s <= 255,
            0 <= e <= 255,
            0 <= n <= d,
            d > 0,
            x == s * d + (e - s) * n,
    ;
    assert(0 <= (2 * x + d) / (2 * d) <= 255) by (nonlinear_arith)
        requires
            0 <= x <= 255 * d,
            d > 0,
    ;
}

fn lerp(s: u8, e: u8, n: u64, d: u64) -> (r: u8)
    requires
        n <= d,
        d > 0,
    ensures
        r == lerp_channel(s as int, e as int, n as int, d as int),
{
    proof {
        lemma_lerp_bounds(s as int, e as int, n as int, d as int);
    }
    assert(s * d <= 255 * 0xffff_ffff_ffff_ffff) by (nonlinear_arith)
        requires
            s <= 255,
            d <= 0xffff_ffff_ffff_ffff,
    ;
    let sd = s as u128 * d as u128;
    let x: u128 = if e >= s {
        assert((e - s) * n <= 255 * 0xffff_ffff_ffff_ffff) by (nonlinear_arith)
            requires
                e - s <= 255,
                0 <= e - s,
                n <= 0xffff_ffff_ffff_ffff,
        ;
        sd + (e - s) as u128 * n as u128
    } else {
        proof {
            assert((s - e) as u128 * n as u128 <= sd) by (nonlinear_arith)
                requires
                    e < s,
                    n <= d,
                    sd == s * d,
            ;
        }
        sd - (s - e) as u128 * n as u128
    };
    assert(x == s * d + (e - s) * n) by (nonlinear_arith)
        requires
            e >= s ==> x == s * d + (e - s) * n,
            e < s ==> x == s * d - (s - e) * n,
    ;
    ((2 * x + d as u128) / (2 * d as u128)) as u8
}

/// The colour at `ratio_num / ratio_den` of the way from the start colour to the end
/// colour, the ratio clamped to at most 1, each channel rounded to the nearest integer.
pub fn gradient_color(ratio_num: u64, ratio_den: u64) -> (c: Rgb)
    requires
        ratio_den > 0,
    ensures
        c == gradient(ratio_num as int, ratio_den as int),
{
    let n = if ratio_num < ratio_den {
        ratio_num
    } else {
        ratio_den
    };
    Rgb { r: lerp(0, 170, n, ratio_den), g: lerp(195, 70, n, ratio_den), b: lerp(255, 255, n, ratio_den) }
}

/// The last `target_len` samples of `history`, with zeros in front where it is shorter,
/// so that a chart always spans its width.
pub fn fixed_history_window(history: &Vec<u128>, target_len: usize) -> (w: Vec<u128>)
    ensures
        w@ == window(history@, target_len as int),
        w@.len() == target_len,
{
    let n = history.len();
    let mut w: Vec<u128> = Vec::new();
    let start: usize = if n >= target_len {
        n - target_len
    } else {
        let mut k: usize = 0;
        while k < target_len - n
            invariant
                n < target_len,
                k <= target_len - n,
                w@ == Seq::new(k as nat, |i: int| 0u128),
            decreases target_len - n - k,
        {
            w.push(0);
            k = k + 1;
            assert(w@ =~= Seq::new(k as nat, |i: int| 0u128));
        }
        0
    };
    let ghost pad = w@;
    let mut i: usize = start;
    while i < n
        invariant
            n == history@.len(),
            start <= i <= n,
            w@ == pad + history@.subrange(start as int, i as int),
        decreases n - i,
    {
        w.push(history[i]);
        i = i + 1;
        assert(w@ =~= pad + history@.subrange(start as int, i as int));
    }
    assert(history@.subrange(0, n as int) =~= history@);
    w
}

fn saturate(v: u128) -> (r: u64)
    ensures
        r == saturated(v),
{
    if v > u64::MAX as u128 {
        u64::MAX
    } else {
        v as u64
    }
}

/// The bar level of a sample under a scale basis.
pub fn level_of(sample: u64, basis: u128) -> (t: u64)
    ensures
        t == bar_level(sample as int, basis as int),
        1 <= t <= 7,
{
    if basis == 0 {
        if sample == 0 {
            1
        } else {
            7
        }
    } else if basis > 0x1_0000_0000_0000_0000_0000_0000 {
        // the scale dwarfs any sample: every ratio stays under 1/7
        proof {
            let n = 10 * sample;
            let d = 11 * basis;
            assert(7 * n + d - 1 < 2 * d);
            assert((7 * n + d - 1) / d <= 1) by (nonlinear_arith)
                requires
                    0 <= 7 * n + d - 1 < 2 * d,
                    d > 0,
            ;
        }
        1
    } else {
        let n: u128 = 10 * sample as u128;
        let d: u128 = 11 * basis;
        let r = if n < d {
            n
        } else {
            d
        };
        proof {
            let ri = r as int;
            let di = d as int;
            assert((7 * ri + di - 1) / di <= 7) by (nonlinear_arith)
                requires
                    0 <= ri <= di,
                    di > 0,
            ;
        }
        let t = ((7 * r + d - 1) / d) as u64;
        if t < 1 {
            1
        } else {
            t
        }
    }
}

/// The largest saturated sample of `w`.
fn window_max(w: &Vec<u128>) -> (m: u64)
    ensures
        m == saturated_max(w@),
{
    let mut m: u64 = 0;
    let mut i: usize = 0;
    assert(w@.subrange(0, 0) =~= Seq::<u128>::empty());
    while i < w.len()
        invariant
            i <= w@.len(),
            m == saturated_max(w@.subrange(0, i as int)),
        decreases w@.len() - i,
    {
        assert(w@.subrange(0, i + 1).drop_last() =~= w@.subrange(0, i as int));
        let v = saturate(w[i]);
        if v > m {
            m = v;
        }
        i = i + 1;
    }
    assert(w@.subrange(0, w@.len() as int) =~= w@);
    m
}

/// The bars of a history chart `target_len` wide, scaled to `global_max` (the largest
/// sample across rows) or, where that is 0, to the chart's own largest sample; with the
/// number of levels. An empty history or a zero width gives no bars.
pub fn history_to_bars(history: &Vec<u128>, target_len: usize, global_max: u128) -> (r: (
    Vec<ChartBar>,
    u64,
))
    ensures
        r.1 == CHART_MAX_TICKS,
        history@.len() == 0 || target_len == 0 ==> r.0@.len() == 0,
        history@.len() > 0 && target_len > 0 ==> r.0@.len() == target_len,
        history@.len() > 0 && target_len > 0 ==> forall|i: int|
            0 <= i < target_len ==> {
                let w = window(history@, target_len as int);
                let level = bar_level(saturated(w[i]), scale_basis(w, global_max));
                &&& (#[trigger] r.0@[i]).value == level
                &&& r.0@[i].color == gradient(level - 1, CHART_MAX_TICKS - 1)
            },
{
    if history.len() == 0 || target_len == 0 {
        return (Vec::new(), CHART_MAX_TICKS);
    }
    let w = fixed_history_window(history, target_len);
    let basis: u128 = if global_max > 0 {
        global_max
    } else {
        window_max(&w) as u128
    };
    let mut bars: Vec<ChartBar> = Vec::new();
    let mut i: usize = 0;
    while i < target_len
        invariant
            w@ == window(history@, target_len as int),
            w@.len() == target_len,
            basis == scale_basis(w@, global_max),
            i <= target_len,
            bars@.len() == i,
            forall|x: int|
                0 <= x < i ==> {
                    let level = bar_level(saturated(w@[x]), basis as int);
                    &&& (#[trigger] bars@[x]).value == level
                    &&& bars@[x].color == gradient(level - 1, CHART_MAX_TICKS - 1)
                },
        decreases target_len - i,
    {
        let level = level_of(saturate(w[i]), basis);
        bars.push(ChartBar { value: level, color: gradient_color(level - 1, CHART_MAX_TICKS - 1) });
        i = i + 1;
    }
    (bars, CHART_MAX_TICKS)
}

fn samples_max(s: &Vec<u128>, start: u128) -> (m: u128)
    ensures
        m == if seq_max(s@) > start {
            seq_max(s@)
        } else {
            start as int
        },
{
    let mut m: u128 = start;
    let mut i: usize = 0;
    assert(s@.subrange(0, 0) =~= Seq::<u128>::empty());
    while i < s.len()
        invariant
            i <= s@.len(),
            m == if seq_max(s@.subrange(0, i as int)) > start {
                seq_max(s@.subrange(0, i as int))
            } else {
                start as int
            },
        decreases s@.len() - i,
    {
        assert(s@.subrange(0, i + 1).drop_last() =~= s@.subrange(0, i as int));
        if s[i] > m {
            m = s[i];
        }
        i = i + 1;
    }
    assert(s@.subrange(0, s@.len() as int) =~= s@);
    m
}

/// The largest download sample and the largest upload sample over the histories of all
/// rows of `state`.
pub fn max_history_values(state: &UIState) -> (r: (u128, u128))
    ensures
        r.0 == rows_max(state.process_rows@, false),
        r.1 == rows_max(state.process_rows@, true),
{
    let rows = &state.process_rows;
    let mut max_download: u128 = 0;
    let mut max_upload: u128 = 0;
    let mut i: usize = 0;
    assert(rows@.subrange(0, 0) =~= Seq::<ProcessRow>::empty());
    while i < rows.len()
        invariant
            i <= rows@.len(),
            max_download == rows_max(rows@.subrange(0, i as int), false),
            max_upload == rows_max(rows@.subrange(0, i as int), true),
        decreases rows@.len() - i,
    {
        assert(rows@.subrange(0, i + 1).drop_last() =~= rows@.subrange(0, i as int));
        max_download = samples_max(&rows[i].download_history, max_download);
        max_upload = samples_max(&rows[i].upload_history, max_upload);
        i = i + 1;
    }
    assert(rows@.subrange(0, rows@.len() as int) =~= rows@);
    (max_download, max_upload)
}

} // verus!
