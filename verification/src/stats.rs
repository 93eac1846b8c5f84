//! Progress bars and labels of the terminal progress report.
use vstd::prelude::*;

verus! {

/// Resets colours and styles.
pub const RST: &'static str = "\x1b[0m";

/// Bold.
pub const BLD: &'static str = "\x1b[1m";

/// Dim.
pub const DIM: &'static str = "\x1b[2m";

/// Red text.
pub const RED: &'static str = "\x1b[31m";

/// Green text.
pub const GRN: &'static str = "\x1b[32m";

/// Yellow text.
pub const YLW: &'static str = "\x1b[33m";

/// Cyan text.
pub const CYN: &'static str = "\x1b[36m";

/// The colour of a bar at `pct` percent: green from 80, yellow from 50,
/// red below.
pub open spec fn bar_color(pct: u32) -> Seq<char> {
    if pct >= 80 {
        GRN@
    } else if pct >= 50 {
        YLW@
    } else {
        RED@
    }
}

/// The filled cells of a bar of `width` cells at `pct` percent: the share
/// rounded down, at most the whole bar.
pub open spec fn bar_filled(pct: u32, width: usize) -> int {
    let f = (pct as int) * (width as int) / 100;
    if f < width {
        f
    } else {
        width as int
    }
}

/// `n` copies of `c`.
pub open spec fn cells(c: char, n: int) -> Seq<char> {
    Seq::new(n as nat, |i: int| c)
}

/// The text of a bar: its colour, the filled cells, the empty cells, and
/// the reset code.
pub open spec fn bar_text(pct: u32, width: usize) -> Seq<char> {
    bar_color(pct) + cells('█', bar_filled(pct, width)) + cells('░', width - bar_filled(pct, width))
        + RST@
}

/// A text progress bar of `width` cells filled to `pct` percent.
pub fn bar(pct: u32, width: usize) -> (r: String)
    requires
        (pct as int) * (width as int) <= usize::MAX,
    ensures
        r@ == bar_text(pct, width),
{
    let product: usize = pct as usize * width;
    let share = product / 100;
    let filled = if share < width {
        share
    } else {
        width
    };
    let mut r = if pct >= 80 {
        crate::text::to_owned(GRN)
    } else if pct >= 50 {
        crate::text::to_owned(YLW)
    } else {
        crate::text::to_owned(RED)
    };
    let ghost color = r@;
    let mut k: usize = 0;
    while k < filled
        invariant
            0 <= k <= filled,
            r@ == color + cells('█', k as int),
        decreases filled - k,
    {
        crate::text::push_char(&mut r, '█');
        assert(cells('█', k + 1) =~= cells('█', k as int).push('█'));
        k += 1;
    }
    let ghost full = r@;
    let mut e: usize = 0;
    while e < width - filled
        invariant
            filled <= width,
            0 <= e <= width - filled,
            r@ == full + cells('░', e as int),
        decreases width - filled - e,
    {
        crate::text::push_char(&mut r, '░');
        assert(cells('░', e + 1) =~= cells('░', e as int).push('░'));
        e += 1;
    }
    r.append(RST);
    proof {
        assert(product / 100 == (pct as int) * (width as int) / 100);
    }
    r
}

/// The verdict shown beside a concept's accuracy: needs work below 60
/// percent, ok below 85, strong from 85.
pub open spec fn mastery_label_text(accuracy: u32) -> Seq<char> {
    if accuracy < 60 {
        RED@ + "▼ needs work"@ + RST@
    } else if accuracy < 85 {
        YLW@ + "~ ok"@ + RST@
    } else {
        GRN@ + "✓ strong"@ + RST@
    }
}

/// The coloured verdict for a concept's accuracy.
pub fn mastery_label(accuracy: u32) -> (r: String)
    ensures
        r@ == mastery_label_text(accuracy),
{
    let (color, text) = if accuracy < 60 {
        (RED, "▼ needs work")
    } else if accuracy < 85 {
        (YLW, "~ ok")
    } else {
        (GRN, "✓ strong")
    };
    let mut r = crate::text::to_owned(color);
    r.append(text);
    r.append(RST);
    r
}

} // verus!
