use vstd::prelude::*;

verus! {

/// The longest line, in characters, of a PPM file's pixel data.
pub const MAX_LINE: usize = 70;

/// The ASCII decimal digits of `n`, most significant first.
pub open spec fn decimal(n: nat) -> Seq<u8>
    decreases n,
{
    if n < 10 {
        seq![(48 + n) as u8]
    } else {
        decimal(n / 10).push((48 + n % 10) as u8)
    }
}

/// The column at which a line stands after the first `n` values of `vals` were written:
/// a value goes after a space on the current line, or at the start of a new line when
/// the space and the value would pass `MAX_LINE`.
pub open spec fn column_after(vals: Seq<u8>, n: int) -> nat
    decreases n,
{
    if n <= 0 {
        0
    } else {
        let c = column_after(vals, n - 1);
        let l = decimal(vals[n - 1] as nat).len();
        if c == 0 || l + c + 1 > MAX_LINE {
            l
        } else {
            c + 1 + l
        }
    }
}

/// What goes before the `n`-th value (counting from zero) of `vals`.
pub open spec fn separator(vals: Seq<u8>, n: int) -> Seq<u8> {
    let c = column_after(vals, n);
    if c == 0 {
        Seq::empty()
    } else if decimal(vals[n] as nat).len() + c + 1 > MAX_LINE {
        seq![10u8]
    } else {
        seq![32u8]
    }
}

/// The text of the first `n` values of `vals`, wrapped as `column_after` describes.
pub open spec fn wrapped(vals: Seq<u8>, n: int) -> Seq<u8>
    decreases n,
{
    if n <= 0 {
        Seq::empty()
    } else {
        wrapped(vals, n - 1) + separator(vals, n - 1) + decimal(vals[n - 1] as nat)
    }
}

/// The channel values of a row of pixels, red, green and blue of each in turn.
pub open spec fn channels(row: Seq<(u8, u8, u8)>) -> Seq<u8> {
    Seq::new(
        3 * row.len(),
        |k: int|
            if k % 3 == 0 {
                row[k / 3].0
            } else if k % 3 == 1 {
                row[k / 3].1
            } else {
                row[k / 3].2
            },
    )
}

/// The header of a plain PPM file: magic number, size and largest channel value.
pub open spec fn header(width: nat, height: nat) -> Seq<u8> {
    seq![80u8, 51, 10] + decimal(width) + seq![32u8] + decimal(height) + seq![10u8, 50, 53, 53, 10]
}

/// The pixel data of the first `n` rows, each row's values wrapped and ended by a newline.
pub open spec fn rows(pixels: Seq<(u8, u8, u8)>, width: nat, n: int) -> Seq<u8>
    decreases n,
{
    if n <= 0 {
        Seq::empty()
    } else {
        let row = pixels.subrange((n - 1) * width, n * width);
        rows(pixels, width, n - 1) + wrapped(channels(row), 3 * width as int) + seq![10u8]
    }
}

/// A whole plain PPM file.
pub open spec fn ppm(width: nat, height: nat, pixels: Seq<(u8, u8, u8)>) -> Seq<u8> {
    header(width, height) + rows(pixels, width, height as int)
}

proof fn lemma_decimal_len(n: nat)
    ensures
        1 <= decimal(n).len(),
        n < 10 ==> decimal(n).len() == 1,
        10 <= n < 100 ==> decimal(n).len() == 2,
        100 <= n < 1000 ==> decimal(n).len() == 3,
    decreases n,
{
    if n >= 10 {
        lemma_decimal_len(n / 10);
    }
}

proof fn lemma_column_bound(vals: Seq<u8>, n: int)
    requires
        0 <= n <= vals.len(),
    ensures
        column_after(vals, n) <= MAX_LINE,
    decreases n,
{
    if n > 0 {
        lemma_column_bound(vals, n - 1);
        lemma_decimal_len(vals[n - 1] as nat);
    }
}

/// The number of bytes just before position `p` of `s` since the last line feed.
pub open spec fn run_before(s: Seq<u8>, p: int) -> nat
    decreases p,
{
    if p <= 0 {
        0
    } else if s[p - 1] == 10 {
        0
    } else {
        1 + run_before(s, p - 1)
    }
}

proof fn lemma_decimal_digits(n: nat)
    ensures
        forall|i: int| 0 <= i < decimal(n).len() ==> 48 <= #[trigger] decimal(n)[i] <= 57,
    decreases n,
{
    if n >= 10 {
        lemma_decimal_digits(n / 10);
        let d = decimal(n / 10);
        assert forall|i: int| 0 <= i < decimal(n).len() implies 48 <= #[trigger] decimal(n)[i]
            <= 57 by {
            if i < d.len() {
                assert(decimal(n)[i] == d[i]);
            }
        }
    }
}

proof fn lemma_run_before_prefix(s: Seq<u8>, t: Seq<u8>, p: int)
    requires
        0 <= p <= s.len(),
    ensures
        run_before(s + t, p) == run_before(s, p),
    decreases p,
{
    if p > 0 {
        lemma_run_before_prefix(s, t, p - 1);
    }
}

proof fn lemma_run_before_digits(s: Seq<u8>, d: Seq<u8>, p: int)
    requires
        s.len() <= p <= s.len() + d.len(),
        forall|i: int| 0 <= i < d.len() ==> 48 <= #[trigger] d[i] <= 57,
    ensures
        run_before(s + d, p) == run_before(s, s.len() as int) + (p - s.len()),
    decreases p,
{
    if p > s.len() {
        lemma_run_before_digits(s, d, p - 1);
        assert((s + d)[p - 1] == d[p - 1 - s.len()]);
    } else {
        lemma_run_before_prefix(s, d, p);
    }
}

/// The wrapped text of any channel values holds no line longer than `MAX_LINE`, and its last
/// line is `column_after` long.
pub proof fn lemma_wrapped_lines(vals: Seq<u8>, n: int)
    requires
        0 <= n <= vals.len(),
    ensures
        run_before(wrapped(vals, n), wrapped(vals, n).len() as int) == column_after(vals, n),
        forall|p: int|
            0 <= p <= wrapped(vals, n).len() ==> #[trigger] run_before(wrapped(vals, n), p)
                <= MAX_LINE,
    decreases n,
{
    if n > 0 {
        lemma_wrapped_lines(vals, n - 1);
        lemma_column_bound(vals, n - 1);
        let w = wrapped(vals, n - 1);
        let sep = separator(vals, n - 1);
        let d = decimal(vals[n - 1] as nat);
        lemma_decimal_digits(vals[n - 1] as nat);
        lemma_decimal_len(vals[n - 1] as nat);
        let ws = w + sep;
        assert(wrapped(vals, n) == ws + d);
        assert(run_before(ws, ws.len() as int) == if sep.len() == 0 {
            column_after(vals, n - 1)
        } else if sep[0] == 10 {
            0
        } else {
            column_after(vals, n - 1) + 1
        }) by {
            if sep.len() > 0 {
                lemma_run_before_prefix(w, sep, w.len() as int);
                assert(ws[ws.len() - 1] == sep[0]);
            } else {
                assert(ws =~= w);
            }
        }
        assert forall|p: int| 0 <= p <= wrapped(vals, n).len() implies #[trigger] run_before(
            wrapped(vals, n),
            p,
        ) <= MAX_LINE by {
            if p <= ws.len() {
                lemma_run_before_prefix(ws, d, p);
                if p <= w.len() {
                    lemma_run_before_prefix(w, sep, p);
                }
            } else {
                lemma_run_before_digits(ws, d, p);
            }
        }
        lemma_run_before_digits(ws, d, wrapped(vals, n).len() as int);
    }
}

proof fn lemma_run_before_after_newline(s: Seq<u8>, t: Seq<u8>, q: int)
    requires
        run_before(s, s.len() as int) == 0,
        0 <= q <= t.len(),
    ensures
        run_before(s + t, s.len() + q) == run_before(t, q),
    decreases q,
{
    if q > 0 {
        lemma_run_before_after_newline(s, t, q - 1);
        assert((s + t)[s.len() + q - 1] == t[q - 1]);
    }
}

proof fn lemma_run_before_concat_bound(s: Seq<u8>, t: Seq<u8>, q: int)
    requires
        0 <= q <= t.len(),
    ensures
        run_before(s + t, s.len() + q) <= run_before(s, s.len() as int) + q,
    decreases q,
{
    if q > 0 {
        lemma_run_before_concat_bound(s, t, q - 1);
        assert((s + t)[s.len() + q - 1] == t[q - 1]);
    } else {
        lemma_run_before_prefix(s, t, s.len() as int);
    }
}

/// Every line of the pixel data of the first `n` rows is at most `MAX_LINE` long, and the
/// data ends a line.
pub proof fn lemma_rows_lines(pixels: Seq<(u8, u8, u8)>, width: nat, n: int)
    requires
        0 <= n,
        n * width <= pixels.len(),
    ensures
        run_before(rows(pixels, width, n), rows(pixels, width, n).len() as int) == 0,
        forall|p: int|
            0 <= p <= rows(pixels, width, n).len() ==> #[trigger] run_before(
                rows(pixels, width, n),
                p,
            ) <= MAX_LINE,
    decreases n,
{
    if n > 0 {
        assert((n - 1) * width <= n * width) by (nonlinear_arith)
            requires
                n > 0,
        ;
        assert(n * width == (n - 1) * width + width) by (nonlinear_arith);
        lemma_rows_lines(pixels, width, n - 1);
        let r = rows(pixels, width, n - 1);
        let row = pixels.subrange((n - 1) * width, n * width);
        let vals = channels(row);
        let w = wrapped(vals, 3 * width as int);
        lemma_wrapped_lines(vals, 3 * width as int);
        let rw = r + w;
        assert(rows(pixels, width, n) == rw + seq![10u8]);
        assert forall|p: int| 0 <= p <= rows(pixels, width, n).len() implies #[trigger] run_before(
            rows(pixels, width, n),
            p,
        ) <= MAX_LINE by {
            if p <= rw.len() {
                lemma_run_before_prefix(rw, seq![10u8], p);
                if p <= r.len() {
                    lemma_run_before_prefix(r, w, p);
                } else {
                    lemma_run_before_after_newline(r, w, p - r.len());
                }
            }
        }
    }
}

proof fn lemma_decimal_len_bound(n: nat, k: nat, b: nat)
    requires
        n < b,
        b <= ten_to(k),
    ensures
        decimal(n).len() <= k + 1,
    decreases k,
{
    if n >= 10 && k > 0 {
        assert(n / 10 < ten_to((k - 1) as nat));
        lemma_decimal_len_bound(n / 10, (k - 1) as nat, ten_to((k - 1) as nat));
    } else if n >= 10 {
        assert(false);
    }
}

spec fn ten_to(k: nat) -> nat
    decreases k,
{
    if k == 0 {
        1
    } else {
        10 * ten_to((k - 1) as nat)
    }
}

/// Every line of a whole PPM file is at most `MAX_LINE` long, for any canvas that fits in
/// memory.
pub proof fn lemma_ppm_lines(width: nat, height: nat, pixels: Seq<(u8, u8, u8)>)
    requires
        width <= usize::MAX,
        height <= usize::MAX,
        pixels.len() == width * height,
    ensures
        forall|p: int|
            0 <= p <= ppm(width, height, pixels).len() ==> #[trigger] run_before(
                ppm(width, height, pixels),
                p,
            ) <= MAX_LINE,
{
    reveal_with_fuel(ten_to, 21);
    assert(ten_to(20) == 100000000000000000000nat);
    lemma_decimal_len_bound(width, 20, 100000000000000000000nat);
    lemma_decimal_len_bound(height, 20, 100000000000000000000nat);
    assert(height * width == width * height) by (nonlinear_arith);
    lemma_rows_lines(pixels, width, height as int);
    let a = seq![80u8, 51, 10];
    let tail = seq![50u8, 53, 53, 10];
    assert(a[0] == 80 && a[1] == 51 && a[2] == 10);
    assert(run_before(a, 0) == 0);
    assert(run_before(a, 1) == 1);
    assert(run_before(a, 2) == 2);
    assert(run_before(a, 3) == 0);
    assert(tail[0] == 50 && tail[1] == 53 && tail[2] == 53 && tail[3] == 10);
    assert(run_before(tail, 0) == 0);
    assert(run_before(tail, 1) == 1);
    assert(run_before(tail, 2) == 2);
    assert(run_before(tail, 3) == 3);
    assert(run_before(tail, 4) == 0);
    let dw = decimal(width);
    let dh = decimal(height);
    let h1 = a + dw;
    let h2 = h1 + seq![32u8];
    let h3 = h2 + dh;
    let h4 = h3 + seq![10u8];
    let hd = h4 + seq![50u8, 53, 53, 10];
    let body = rows(pixels, width, height as int);
    assert(hd =~= header(width, height));
    lemma_decimal_digits(width);
    lemma_decimal_digits(height);
    lemma_run_before_digits(a, dw, h1.len() as int);
    lemma_run_before_concat_bound(h1, seq![32u8], 1);
    lemma_run_before_digits(h2, dh, h3.len() as int);
    assert(h4[h4.len() - 1] == 10);
    assert(run_before(h4, h4.len() as int) == 0);
    assert(run_before(hd, hd.len() as int) == 0) by {
        assert(hd[hd.len() - 1] == 10);
    }
    assert forall|p: int| 0 <= p <= ppm(width, height, pixels).len() implies #[trigger] run_before(
        ppm(width, height, pixels),
        p,
    ) <= MAX_LINE by {
        assert(ppm(width, height, pixels) == hd + body);
        if p > hd.len() {
            lemma_run_before_after_newline(hd, body, p - hd.len());
        } else {
            lemma_run_before_prefix(hd, body, p);
            if p <= h4.len() {
                lemma_run_before_prefix(h4, seq![50u8, 53, 53, 10], p);
                if p <= h3.len() {
                    lemma_run_before_prefix(h3, seq![10u8], p);
                    if p <= h2.len() {
                        lemma_run_before_prefix(h2, dh, p);
                        if p <= h1.len() {
                            lemma_run_before_prefix(h1, seq![32u8], p);
                            if p <= 3 {
                                lemma_run_before_prefix(a, dw, p);
                            } else {
                                lemma_run_before_digits(a, dw, p);
                            }
                        }
                    } else {
                        lemma_run_before_digits(h2, dh, p);
                    }
                }
            } else {
                lemma_run_before_after_newline(h4, seq![50u8, 53, 53, 10], p - h4.len());
            }
        }
    }
}

/// Appends the decimal digits of `n`.
pub fn push_decimal(out: &mut Vec<u8>, n: usize)
    ensures
        final(out)@ == old(out)@ + decimal(n as nat),
    decreases n,
{
    if n >= 10 {
        push_decimal(out, n / 10);
    }
    out.push(48 + (n % 10) as u8);
    assert(final(out)@ =~= old(out)@ + decimal(n as nat));
}

/// Appends the `k`-th value of `vals`, with what goes before it, and returns the new column.
pub(crate) fn push_value(out: &mut Vec<u8>, col: usize, vals: Ghost<Seq<u8>>, k: Ghost<int>, v: u8) -> (r:
    usize)
    requires
        0 <= k@ < vals@.len(),
        vals@[k@] == v,
        col == column_after(vals@, k@),
    ensures
        final(out)@ == old(out)@ + separator(vals@, k@) + decimal(v as nat),
        r == column_after(vals@, k@ + 1),
{
    proof {
        lemma_column_bound(vals@, k@);
        lemma_decimal_len(v as nat);
    }
    let len: usize = if v >= 100 {
        3
    } else if v >= 10 {
        2
    } else {
        1
    };
    let mut col = col;
    if col == 0 {
        col = len;
    } else if len + col + 1 > MAX_LINE {
        out.push(10);
        col = len;
    } else {
        out.push(32);
        col = col + 1 + len;
    }
    push_decimal(out, v as usize);
    col
}

} // verus!
