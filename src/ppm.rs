use crate::canvas::Color;
use crate::decimal::{
    decimal, is_digit, lemma_decimal_shape, lemma_decimal_unique, parse_decimal, starts_with_decimal,
};
use vstd::prelude::*;

verus! {

/// One pixel of the plain-text format: "R G B" and a line feed.
pub open spec fn pixel_line(c: (u8, u8, u8)) -> Seq<u8> {
    decimal(c.0 as nat) + seq![32u8] + decimal(c.1 as nat) + seq![32u8] + decimal(c.2 as nat)
        + seq![10u8]
}

/// The pixel lines of `px`, in order.
pub open spec fn pixel_lines(px: Seq<(u8, u8, u8)>) -> Seq<u8>
    decreases px.len(),
{
    if px.len() == 0 {
        Seq::empty()
    } else {
        pixel_lines(px.drop_last()) + pixel_line(px.last())
    }
}

/// "P3", the width and height, and the largest channel value 255, each on
/// a line of its own.
pub open spec fn ppm_header(w: nat, h: nat) -> Seq<u8> {
    seq![80u8, 51u8, 10u8] + decimal(w) + seq![32u8] + decimal(h) + seq![
        10u8,
        50u8,
        53u8,
        53u8,
        10u8,
    ]
}

/// The plain-text form of a `w` x `h` grid whose pixels, row by row, are `px`.
pub open spec fn ppm_text(w: nat, h: nat, px: Seq<(u8, u8, u8)>) -> Seq<u8> {
    ppm_header(w, h) + pixel_lines(px)
}

/// `b` is the plain-text form of a grid of size `w` x `h` with pixels `px`,
/// a grid small enough to be held in memory, three bytes a pixel.
pub open spec fn is_ppm_of(b: Seq<u8>, w: nat, h: nat, px: Seq<(u8, u8, u8)>) -> bool {
    &&& w <= u32::MAX
    &&& h <= u32::MAX
    &&& 3 * w * h <= isize::MAX
    &&& px.len() == w * h
    &&& ppm_text(w, h, px) == b
}

pub proof fn lemma_pixel_lines_split(a: Seq<(u8, u8, u8)>, b: Seq<(u8, u8, u8)>)
    ensures
        pixel_lines(a + b) == pixel_lines(a) + pixel_lines(b),
    decreases b.len(),
{
    if b.len() == 0 {
        assert(a + b =~= a);
        assert(pixel_lines(a) + pixel_lines(b) =~= pixel_lines(a));
    } else {
        lemma_pixel_lines_split(a, b.drop_last());
        assert((a + b).drop_last() =~= a + b.drop_last());
        assert(pixel_lines(a) + pixel_lines(b) =~= pixel_lines(a) + pixel_lines(b.drop_last())
            + pixel_line(b.last()));
    }
}

pub proof fn lemma_pixel_lines_push(a: Seq<(u8, u8, u8)>, c: (u8, u8, u8))
    ensures
        pixel_lines(a.push(c)) == pixel_lines(a) + pixel_line(c),
{
    assert(a.push(c).drop_last() =~= a);
}

/// The pixel lines of a nonempty sequence start with the line of its first
/// pixel.
pub proof fn lemma_pixel_lines_first(p: Seq<(u8, u8, u8)>)
    requires
        p.len() > 0,
    ensures
        pixel_lines(p) == pixel_line(p[0]) + pixel_lines(p.drop_first()),
{
    let one = seq![p[0]];
    assert(p =~= one + p.drop_first());
    lemma_pixel_lines_split(one, p.drop_first());
    assert(one.drop_last() =~= Seq::<(u8, u8, u8)>::empty());
    assert(pixel_lines(Seq::<(u8, u8, u8)>::empty()) == Seq::<u8>::empty());
    assert(one.last() == p[0]);
    assert(pixel_lines(one) =~= pixel_line(p[0]));
}

proof fn lemma_decimal_nonempty(n: nat)
    ensures
        decimal(n).len() >= 1,
{
    lemma_decimal_shape(n);
}

/// A decimal, a separator that is no digit, and what follows: the decimal
/// and what follows are fixed by the whole.
proof fn lemma_peel(a: nat, b: nat, c: u8, s: Seq<u8>, t: Seq<u8>)
    requires
        decimal(a) + seq![c] + s == decimal(b) + seq![c] + t,
        !is_digit(c),
    ensures
        a == b,
        s == t,
{
    let cs = seq![c] + s;
    let ct = seq![c] + t;
    assert(decimal(a) + seq![c] + s =~= decimal(a) + cs);
    assert(decimal(b) + seq![c] + t =~= decimal(b) + ct);
    lemma_decimal_unique(a, b, cs, ct);
    assert(s =~= cs.drop_first());
    assert(t =~= ct.drop_first());
}

proof fn lemma_pixel_line_shape(c: (u8, u8, u8), s: Seq<u8>)
    ensures
        pixel_line(c) + s == decimal(c.0 as nat) + seq![32u8] + (decimal(c.1 as nat) + seq![32u8]
            + (decimal(c.2 as nat) + seq![10u8] + s)),
{
    assert(pixel_line(c) + s =~= decimal(c.0 as nat) + seq![32u8] + (decimal(c.1 as nat)
        + seq![32u8] + (decimal(c.2 as nat) + seq![10u8] + s)));
}

/// A pixel line and what follows it determine the pixel and the rest.
proof fn lemma_pixel_line_unique(c: (u8, u8, u8), d: (u8, u8, u8), s: Seq<u8>, t: Seq<u8>)
    requires
        pixel_line(c) + s == pixel_line(d) + t,
    ensures
        c == d,
        s == t,
{
    lemma_pixel_line_shape(c, s);
    lemma_pixel_line_shape(d, t);
    lemma_peel(
        c.0 as nat,
        d.0 as nat,
        32u8,
        decimal(c.1 as nat) + seq![32u8] + (decimal(c.2 as nat) + seq![10u8] + s),
        decimal(d.1 as nat) + seq![32u8] + (decimal(d.2 as nat) + seq![10u8] + t),
    );
    lemma_peel(
        c.1 as nat,
        d.1 as nat,
        32u8,
        decimal(c.2 as nat) + seq![10u8] + s,
        decimal(d.2 as nat) + seq![10u8] + t,
    );
    lemma_peel(c.2 as nat, d.2 as nat, 10u8, s, t);
}

proof fn lemma_pixel_lines_unique(p: Seq<(u8, u8, u8)>, q: Seq<(u8, u8, u8)>)
    requires
        pixel_lines(p) == pixel_lines(q),
    ensures
        p == q,
    decreases p.len(),
{
    if p.len() == 0 && q.len() == 0 {
        assert(p =~= q);
    } else if p.len() == 0 {
        lemma_pixel_lines_first(q);
        lemma_decimal_nonempty(q[0].0 as nat);
    } else if q.len() == 0 {
        lemma_pixel_lines_first(p);
        lemma_decimal_nonempty(p[0].0 as nat);
    } else {
        lemma_pixel_lines_first(p);
        lemma_pixel_lines_first(q);
        lemma_pixel_line_unique(p[0], q[0], pixel_lines(p.drop_first()), pixel_lines(q.drop_first()));
        lemma_pixel_lines_unique(p.drop_first(), q.drop_first());
        assert(p =~= q) by {
            assert forall|i: int| 0 <= i < p.len() implies p[i] == q[i] by {
                if i > 0 {
                    assert(p[i] == p.drop_first()[i - 1]);
                    assert(q[i] == q.drop_first()[i - 1]);
                }
            }
        }
    }
}

pub proof fn lemma_ppm_text_shape(w: nat, h: nat, px: Seq<(u8, u8, u8)>)
    ensures
        ppm_text(w, h, px) == seq![80u8, 51u8, 10u8] + (decimal(w) + seq![32u8] + (decimal(h)
            + seq![10u8] + (seq![50u8, 53u8, 53u8, 10u8] + pixel_lines(px)))),
{
    assert(ppm_text(w, h, px) =~= seq![80u8, 51u8, 10u8] + (decimal(w) + seq![32u8] + (decimal(
        h,
    ) + seq![10u8] + (seq![50u8, 53u8, 53u8, 10u8] + pixel_lines(px)))));
}

/// The plain-text form determines the size and the pixels: decoding what
/// was encoded gives back the same grid.
pub proof fn lemma_ppm_round_trip(
    w: nat,
    h: nat,
    px: Seq<(u8, u8, u8)>,
    w2: nat,
    h2: nat,
    px2: Seq<(u8, u8, u8)>,
)
    requires
        is_ppm_of(ppm_text(w, h, px), w2, h2, px2),
    ensures
        w2 == w,
        h2 == h,
        px2 == px,
{
    lemma_ppm_text_shape(w, h, px);
    lemma_ppm_text_shape(w2, h2, px2);
    let magic = seq![80u8, 51u8, 10u8];
    let a = ppm_text(w, h, px);
    let r = a.subrange(3, a.len() as int);
    let tail = seq![50u8, 53u8, 53u8, 10u8];
    assert(r =~= decimal(w) + seq![32u8] + (decimal(h) + seq![10u8] + (tail
        + pixel_lines(px)))) by {
        assert((magic + (decimal(w) + seq![32u8] + (decimal(h) + seq![10u8] + (
        tail + pixel_lines(px))))).subrange(3, a.len() as int) =~= decimal(w)
            + seq![32u8] + (decimal(h) + seq![10u8] + (tail + pixel_lines(px))));
    }
    assert(r =~= decimal(w2) + seq![32u8] + (decimal(h2) + seq![10u8] + (tail
        + pixel_lines(px2)))) by {
        assert((magic + (decimal(w2) + seq![32u8] + (decimal(h2) + seq![10u8] + (
        tail + pixel_lines(px2))))).subrange(3, a.len() as int) =~= decimal(w2)
            + seq![32u8] + (decimal(h2) + seq![10u8] + (tail + pixel_lines(px2))));
    }
    lemma_peel(
        w,
        w2,
        32u8,
        decimal(h) + seq![10u8] + (tail + pixel_lines(px)),
        decimal(h2) + seq![10u8] + (tail + pixel_lines(px2)),
    );
    lemma_peel(
        h,
        h2,
        10u8,
        tail + pixel_lines(px),
        tail + pixel_lines(px2),
    );
    assert(pixel_lines(px) =~= (tail + pixel_lines(px)).subrange(
        4,
        4 + pixel_lines(px).len() as int,
    ));
    assert(pixel_lines(px2) =~= (tail + pixel_lines(px2)).subrange(
        4,
        4 + pixel_lines(px2).len() as int,
    ));
    lemma_pixel_lines_unique(px, px2);
}

} // verus!

verus! {

/// `b` holds the pixel line of `c` from `pos` on.
pub open spec fn starts_with_line(b: Seq<u8>, pos: int, c: (u8, u8, u8)) -> bool {
    &&& 0 <= pos
    &&& pos + pixel_line(c).len() <= b.len()
    &&& b.subrange(pos, pos + pixel_line(c).len()) == pixel_line(c)
}

pub proof fn lemma_subrange_join(b: Seq<u8>, i: int, j: int, k: int)
    requires
        0 <= i <= j <= k <= b.len(),
    ensures
        b.subrange(i, k) == b.subrange(i, j) + b.subrange(j, k),
{
    assert(b.subrange(i, k) =~= b.subrange(i, j) + b.subrange(j, k));
}

/// Where `b` holds a decimal, a byte `c` that is no digit and then `rest`,
/// from `pos` up to `pos + m`, a scan of the decimal finds it.
pub proof fn lemma_starts(b: Seq<u8>, pos: int, m: int, n: nat, c: u8, rest: Seq<u8>)
    requires
        0 <= pos,
        0 <= m,
        pos + m <= b.len(),
        b.subrange(pos, pos + m) == decimal(n) + seq![c] + rest,
        !is_digit(c),
    ensures
        starts_with_decimal(b, pos, n),
        b[pos + decimal(n).len()] == c,
        b.subrange(pos + decimal(n).len() + 1, pos + m) == rest,
{
    let l = decimal(n).len() as int;
    let x = b.subrange(pos, pos + m);
    assert(x.len() == l + 1 + rest.len());
    assert(x[l] == c);
    assert(b[pos + l] == x[l]);
    assert(b.subrange(pos, pos + l) =~= x.subrange(0, l));
    assert(b.subrange(pos + l + 1, pos + m) =~= x.subrange(l + 1, m));
    assert(x.subrange(l + 1, m) =~= rest);
    assert(x.subrange(0, l) =~= decimal(n));
    assert(!is_digit(b[pos + l]));
}

/// The three decimals of a pixel line at `pos`, each where a scan finds it.
proof fn lemma_line_starts(b: Seq<u8>, pos: int, c: (u8, u8, u8))
    requires
        starts_with_line(b, pos, c),
    ensures
        starts_with_decimal(b, pos, c.0 as nat),
        starts_with_decimal(b, pos + decimal(c.0 as nat).len() + 1, c.1 as nat),
        starts_with_decimal(
            b,
            pos + decimal(c.0 as nat).len() + 1 + decimal(c.1 as nat).len() + 1,
            c.2 as nat,
        ),
        b[pos + decimal(c.0 as nat).len()] == 32u8,
        b[pos + decimal(c.0 as nat).len() + 1 + decimal(c.1 as nat).len()] == 32u8,
        b[pos + decimal(c.0 as nat).len() + 1 + decimal(c.1 as nat).len() + 1 + decimal(
            c.2 as nat,
        ).len()] == 10u8,
        pixel_line(c).len() == decimal(c.0 as nat).len() + 1 + decimal(c.1 as nat).len() + 1
            + decimal(c.2 as nat).len() + 1,
{
    let sp = seq![32u8];
    let nl = seq![10u8];
    let m = pixel_line(c).len() as int;
    let l0 = decimal(c.0 as nat).len() as int;
    let l1 = decimal(c.1 as nat).len() as int;
    let r1 = decimal(c.1 as nat) + sp + (decimal(c.2 as nat) + nl);
    let r2 = decimal(c.2 as nat) + nl;
    assert(pixel_line(c) =~= decimal(c.0 as nat) + sp + r1);
    lemma_starts(b, pos, m, c.0 as nat, 32u8, r1);
    assert(r1 =~= decimal(c.1 as nat) + sp + r2);
    lemma_starts(b, pos + l0 + 1, m - l0 - 1, c.1 as nat, 32u8, r2);
    assert(r2 =~= decimal(c.2 as nat) + nl + Seq::<u8>::empty());
    lemma_starts(
        b,
        pos + l0 + 1 + l1 + 1,
        m - l0 - 1 - l1 - 1,
        c.2 as nat,
        10u8,
        Seq::<u8>::empty(),
    );
}

/// Reads the pixel line at `pos` of `b`, and gives the pixel and the
/// position after the line.
pub fn parse_pixel(b: &[u8], pos: usize) -> (r: Option<(Color, usize)>)
    requires
        pos <= b.len(),
    ensures
        r matches Some((c, e)) ==> {
            &&& pos + 6 <= e <= b.len()
            &&& b@.subrange(pos as int, e as int) == pixel_line(c.rgb())
        },
        forall|c: (u8, u8, u8)| #[trigger]
            starts_with_line(b@, pos as int, c) ==> (r matches Some((col, e)) && col.rgb() == c
                && e == pos + pixel_line(c).len()),
{
    let ghost sp = seq![32u8];
    let ghost nl = seq![10u8];
    let (red, end_r) = match parse_decimal(b, pos, 255) {
        Some(x) => x,
        None => {
            proof {
                assert forall|c: (u8, u8, u8)| #[trigger]
                    starts_with_line(b@, pos as int, c) implies false by {
                    lemma_line_starts(b@, pos as int, c);
                }
            }
            return None;
        },
    };
    proof {
        assert forall|c: (u8, u8, u8)| #[trigger] starts_with_line(b@, pos as int, c) implies red
            == c.0 && end_r == pos + decimal(c.0 as nat).len() by {
            lemma_line_starts(b@, pos as int, c);
        }
    }
    if end_r >= b.len() || b[end_r] != 32 {
        proof {
            assert forall|c: (u8, u8, u8)| #[trigger]
                starts_with_line(b@, pos as int, c) implies false by {
                lemma_line_starts(b@, pos as int, c);
            }
        }
        return None;
    }
    let (green, end_g) = match parse_decimal(b, end_r + 1, 255) {
        Some(x) => x,
        None => {
            proof {
                assert forall|c: (u8, u8, u8)| #[trigger]
                    starts_with_line(b@, pos as int, c) implies false by {
                    lemma_line_starts(b@, pos as int, c);
                    assert(starts_with_decimal(b@, end_r + 1, c.1 as nat));
                }
            }
            return None;
        },
    };
    proof {
        assert forall|c: (u8, u8, u8)| #[trigger] starts_with_line(b@, pos as int, c) implies green
            == c.1 && end_g == end_r + 1 + decimal(c.1 as nat).len() by {
            lemma_line_starts(b@, pos as int, c);
            assert(starts_with_decimal(b@, end_r + 1, c.1 as nat));
        }
    }
    if end_g >= b.len() || b[end_g] != 32 {
        proof {
            assert forall|c: (u8, u8, u8)| #[trigger]
                starts_with_line(b@, pos as int, c) implies false by {
                lemma_line_starts(b@, pos as int, c);
            }
        }
        return None;
    }
    let (blue, end_b) = match parse_decimal(b, end_g + 1, 255) {
        Some(x) => x,
        None => {
            proof {
                assert forall|c: (u8, u8, u8)| #[trigger]
                    starts_with_line(b@, pos as int, c) implies false by {
                    lemma_line_starts(b@, pos as int, c);
                    assert(starts_with_decimal(b@, end_g + 1, c.2 as nat));
                }
            }
            return None;
        },
    };
    proof {
        assert forall|c: (u8, u8, u8)| #[trigger] starts_with_line(b@, pos as int, c) implies blue
            == c.2 && end_b == end_g + 1 + decimal(c.2 as nat).len() by {
            lemma_line_starts(b@, pos as int, c);
            assert(starts_with_decimal(b@, end_g + 1, c.2 as nat));
        }
    }
    if end_b >= b.len() || b[end_b] != 10 {
        proof {
            assert forall|c: (u8, u8, u8)| #[trigger]
                starts_with_line(b@, pos as int, c) implies false by {
                lemma_line_starts(b@, pos as int, c);
            }
        }
        return None;
    }
    let c = Color { r: red as u8, g: green as u8, b: blue as u8 };
    proof {
        let bb = b@;
        lemma_subrange_join(bb, pos as int, end_r as int, end_b + 1);
        lemma_subrange_join(bb, end_r as int, end_r + 1, end_b + 1);
        lemma_subrange_join(bb, end_r + 1, end_g as int, end_b + 1);
        lemma_subrange_join(bb, end_g as int, end_g + 1, end_b + 1);
        lemma_subrange_join(bb, end_g + 1, end_b as int, end_b + 1);
        assert(bb.subrange(end_r as int, end_r + 1) =~= sp);
        assert(bb.subrange(end_g as int, end_g + 1) =~= sp);
        assert(bb.subrange(end_b as int, end_b + 1) =~= nl);
        assert(bb.subrange(pos as int, end_b + 1) =~= pixel_line(c.rgb()));
        lemma_decimal_shape(red as nat);
        lemma_decimal_shape(green as nat);
        lemma_decimal_shape(blue as nat);
    }
    Some((c, end_b + 1))
}

/// Where `b` is the plain-text form of a grid, where each part of its
/// header stands.
pub proof fn lemma_header_parts(b: Seq<u8>, w: nat, h: nat, px: Seq<(u8, u8, u8)>)
    requires
        is_ppm_of(b, w, h, px),
    ensures
        ({
            let lw = decimal(w).len() as int;
            let lh = decimal(h).len() as int;
            &&& b.len() >= 3
            &&& b[0] == 80u8
            &&& b[1] == 51u8
            &&& b[2] == 10u8
            &&& starts_with_decimal(b, 3, w)
            &&& b[3 + lw] == 32u8
            &&& starts_with_decimal(b, 4 + lw, h)
            &&& b.len() >= 9 + lw + lh
            &&& b[4 + lw + lh] == 10u8
            &&& b[5 + lw + lh] == 50u8
            &&& b[6 + lw + lh] == 53u8
            &&& b[7 + lw + lh] == 53u8
            &&& b[8 + lw + lh] == 10u8
            &&& b.subrange(9 + lw + lh, b.len() as int) == pixel_lines(px)
        }),
{
    let tail = seq![50u8, 53u8, 53u8, 10u8];
    let r1 = decimal(h) + seq![10u8] + (tail + pixel_lines(px));
    let lw = decimal(w).len() as int;
    let lh = decimal(h).len() as int;
    lemma_ppm_text_shape(w, h, px);
    assert(b.subrange(3, b.len() as int) =~= decimal(w) + seq![32u8] + r1);
    lemma_starts(b, 3, b.len() - 3, w, 32u8, r1);
    lemma_starts(b, 4 + lw, b.len() - 4 - lw, h, 10u8, tail + pixel_lines(px));
    let x = b.subrange(5 + lw + lh, b.len() as int);
    assert(x == tail + pixel_lines(px));
    assert(b[5 + lw + lh] == x[0] && b[6 + lw + lh] == x[1] && b[7 + lw + lh] == x[2] && b[8 + lw
        + lh] == x[3]);
    assert(b.subrange(9 + lw + lh, b.len() as int) =~= x.subrange(4, x.len() as int));
    assert(x.subrange(4, x.len() as int) =~= pixel_lines(px));
}

/// Reads the three header lines of the plain-text form, and gives the
/// width, the height and the position after the header.
pub fn parse_ppm_header(b: &[u8]) -> (r: Option<(u32, u32, usize)>)
    ensures
        r matches Some((w, h, pos)) ==> {
            &&& pos <= b.len()
            &&& b@.subrange(0, pos as int) == ppm_header(w as nat, h as nat)
        },
        forall|w: nat, h: nat, px: Seq<(u8, u8, u8)>| #[trigger]
            is_ppm_of(b@, w, h, px) ==> (r matches Some((w2, h2, pos)) && w2 == w && h2 == h
                && b@.subrange(pos as int, b.len() as int) == pixel_lines(px)),
{
    if b.len() < 3 || b[0] != 80 || b[1] != 51 || b[2] != 10 {
        proof {
            assert forall|w: nat, h: nat, px: Seq<(u8, u8, u8)>| #[trigger]
                is_ppm_of(b@, w, h, px) implies false by {
                lemma_header_parts(b@, w, h, px);
            }
        }
        return None;
    }
    let (w, p) = match parse_decimal(b, 3, 0xFFFF_FFFF) {
        Some(x) => x,
        None => {
            proof {
                assert forall|w: nat, h: nat, px: Seq<(u8, u8, u8)>| #[trigger]
                    is_ppm_of(b@, w, h, px) implies false by {
                    lemma_header_parts(b@, w, h, px);
                }
            }
            return None;
        },
    };
    proof {
        assert forall|w2: nat, h2: nat, px: Seq<(u8, u8, u8)>| #[trigger]
            is_ppm_of(b@, w2, h2, px) implies w2 == w && p == 3 + decimal(w2).len() by {
            lemma_header_parts(b@, w2, h2, px);
        }
    }
    if p >= b.len() || b[p] != 32 {
        proof {
            assert forall|w: nat, h: nat, px: Seq<(u8, u8, u8)>| #[trigger]
                is_ppm_of(b@, w, h, px) implies false by {
                lemma_header_parts(b@, w, h, px);
            }
        }
        return None;
    }
    let (h, q) = match parse_decimal(b, p + 1, 0xFFFF_FFFF) {
        Some(x) => x,
        None => {
            proof {
                assert forall|w: nat, h: nat, px: Seq<(u8, u8, u8)>| #[trigger]
                    is_ppm_of(b@, w, h, px) implies false by {
                    lemma_header_parts(b@, w, h, px);
                    assert(starts_with_decimal(b@, p + 1, h));
                }
            }
            return None;
        },
    };
    proof {
        assert forall|w2: nat, h2: nat, px: Seq<(u8, u8, u8)>| #[trigger]
            is_ppm_of(b@, w2, h2, px) implies h2 == h && q == p + 1 + decimal(h2).len() by {
            lemma_header_parts(b@, w2, h2, px);
            assert(starts_with_decimal(b@, p + 1, h2));
        }
    }
    if q >= b.len() || b.len() - q < 5 || b[q] != 10 || b[q + 1] != 50 || b[q + 2] != 53 || b[q
        + 3] != 53 || b[q + 4] != 10 {
        proof {
            assert forall|w: nat, h: nat, px: Seq<(u8, u8, u8)>| #[trigger]
                is_ppm_of(b@, w, h, px) implies false by {
                lemma_header_parts(b@, w, h, px);
            }
        }
        return None;
    }
    let pos: usize = q + 5;
    proof {
        let bb = b@;
        lemma_subrange_join(bb, 0, 3, pos as int);
        lemma_subrange_join(bb, 3, p as int, pos as int);
        lemma_subrange_join(bb, p as int, p + 1, pos as int);
        lemma_subrange_join(bb, p + 1, q as int, pos as int);
        assert(bb.subrange(0, 3) =~= seq![80u8, 51u8, 10u8]);
        assert(bb.subrange(p as int, p + 1) =~= seq![32u8]);
        assert(bb.subrange(q as int, pos as int) =~= seq![10u8, 50u8, 53u8, 53u8, 10u8]);
        assert(bb.subrange(0, pos as int) =~= ppm_header(w as nat, h as nat));
        assert forall|w2: nat, h2: nat, px: Seq<(u8, u8, u8)>| #[trigger]
            is_ppm_of(b@, w2, h2, px) implies b@.subrange(pos as int, b.len() as int)
            == pixel_lines(px) by {
            lemma_header_parts(b@, w2, h2, px);
        }
    }
    Some((w, h, pos))
}

/// No grid has the plain-text form `b`, stated of each size and pixels.
pub proof fn lemma_no_ppm(b: Seq<u8>)
    requires
        !exists|t: (nat, nat, Seq<(u8, u8, u8)>)| is_ppm_of(b, t.0, t.1, t.2),
    ensures
        forall|w: nat, h: nat, px: Seq<(u8, u8, u8)>| !#[trigger] is_ppm_of(b, w, h, px),
{
    assert forall|w: nat, h: nat, px: Seq<(u8, u8, u8)>| !#[trigger] is_ppm_of(b, w, h, px) by {
        if is_ppm_of(b, w, h, px) {
            let t = (w, h, px);
            assert(is_ppm_of(b, t.0, t.1, t.2));
        }
    }
}

/// Where pixel lines fill `b` from `pos` to its end, the first of them
/// starts there, and the rest follow it.
pub proof fn lemma_next_line(b: Seq<u8>, pos: int, px: Seq<(u8, u8, u8)>, k: int)
    requires
        0 <= pos <= b.len(),
        0 <= k <= px.len(),
        b.subrange(pos, b.len() as int) == pixel_lines(px.skip(k)),
    ensures
        pos < b.len() ==> {
            &&& k < px.len()
            &&& starts_with_line(b, pos, px[k])
            &&& b.subrange(pos + pixel_line(px[k]).len(), b.len() as int) == pixel_lines(
                px.skip(k + 1),
            )
        },
        pos == b.len() ==> k == px.len(),
{
    let rest = px.skip(k);
    if rest.len() == 0 {
        assert(pixel_lines(rest) =~= Seq::<u8>::empty());
    } else {
        lemma_pixel_lines_first(rest);
        lemma_decimal_shape(rest[0].0 as nat);
        assert(rest.drop_first() =~= px.skip(k + 1));
        assert(rest[0] == px[k]);
        let l = pixel_line(px[k]).len() as int;
        let x = b.subrange(pos, b.len() as int);
        assert(x == pixel_line(px[k]) + pixel_lines(px.skip(k + 1)));
        assert(x.len() == l + pixel_lines(px.skip(k + 1)).len());
        assert(b.subrange(pos, pos + l) =~= x.subrange(0, l));
        assert(x.subrange(0, l) =~= pixel_line(px[k]));
        assert(b.subrange(pos + l, b.len() as int) =~= x.subrange(l, x.len() as int));
        assert(x.subrange(l, x.len() as int) =~= pixel_lines(px.skip(k + 1)));
    }
}

} // verus!
