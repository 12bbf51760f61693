use vstd::prelude::*;

use crate::writer::{
    feed, lemma_feed_line_end, lemma_settled_text, lemma_step_break, lemma_step_digits,
    lemma_step_space, lines_fit, settled, wrapped_text, MaxWidthWriter, NEWLINE, SPACE,
};

verus! {

/// The decimal digits of `n`, as ASCII text.
pub open spec fn digits(n: nat) -> Seq<u8>
    decreases n,
{
    if n < 10 {
        seq![(48 + n) as u8]
    } else {
        digits(n / 10).push((48 + n % 10) as u8)
    }
}

/// `n` in decimal.
pub fn decimal(n: usize) -> (r: Vec<u8>)
    ensures
        r@ == digits(n as nat),
    decreases n,
{
    if n < 10 {
        let r = vec![(48 + n) as u8];
        proof {
            assert(r@ =~= digits(n as nat));
        }
        r
    } else {
        let mut r = decimal(n / 10);
        r.push((48 + n % 10) as u8);
        r
    }
}

/// `10` to the power `k`.
pub open spec fn pow10(k: nat) -> nat
    decreases k,
{
    if k == 0 {
        1
    } else {
        10 * pow10((k - 1) as nat)
    }
}

/// A number below `10^k` has one to `k` digits, none of them a space or a
/// line break.
pub proof fn lemma_digits_shape(n: nat, k: nat)
    requires
        1 <= k,
        n < pow10(k),
    ensures
        1 <= digits(n).len() <= k,
        !digits(n).contains(SPACE),
        !digits(n).contains(NEWLINE),
    decreases n,
{
    if n >= 10 {
        let k1 = (k - 1) as nat;
        if k == 1 {
            assert(pow10(1) == 10 * pow10(0));
        }
        assert(pow10(k) == 10 * pow10(k1));
        assert(n / 10 < pow10(k1)) by (nonlinear_arith)
            requires
                n < 10 * pow10(k1),
        ;
        lemma_digits_shape(n / 10, k1);
        let d = digits(n);
        let front = digits(n / 10);
        assert(d == front.push((48 + n % 10) as u8));
        assert forall|i: int| 0 <= i < d.len() implies d[i] != SPACE && d[i] != NEWLINE by {
            if i < front.len() {
                assert(d[i] == front[i]);
                if d[i] == SPACE {
                    assert(front.contains(SPACE));
                }
                if d[i] == NEWLINE {
                    assert(front.contains(NEWLINE));
                }
            }
        }
    } else {
        assert(digits(n)[0] == (48 + n) as u8);
    }
}

/// Every `usize` is below `10^20`.
pub proof fn lemma_usize_below_pow10()
    ensures
        usize::MAX < pow10(20),
{
    reveal_with_fuel(pow10, 21);
    assert(pow10(20) == 100000000000000000000nat);
}

/// The line length of the image text.
pub const PPM_LINE_WIDTH: usize = 70;

/// The writes that give the header of the image text: the magic number of
/// the plain format, the size, and the largest channel value, one line each.
pub open spec fn header_chunks(width: nat, height: nat) -> Seq<Seq<u8>> {
    seq![
        seq![80u8, 51u8, NEWLINE],
        digits(width),
        seq![SPACE],
        digits(height),
        seq![NEWLINE, 50u8, 53u8, 53u8, NEWLINE],
    ]
}

/// The writes for one pixel: its three channels apart by spaces, after a
/// space that parts it from the pixel before, where there is one.
pub open spec fn pixel_chunks(first: bool, p: (u8, u8, u8)) -> Seq<Seq<u8>> {
    let body = seq![
        digits(p.0 as nat),
        seq![SPACE],
        digits(p.1 as nat),
        seq![SPACE],
        digits(p.2 as nat),
    ];
    if first {
        body
    } else {
        seq![seq![SPACE]] + body
    }
}

/// The writes for the pixels of one row, without its line break.
pub open spec fn row_chunks(row: Seq<(u8, u8, u8)>) -> Seq<Seq<u8>>
    decreases row.len(),
{
    if row.len() == 0 {
        Seq::empty()
    } else {
        row_chunks(row.drop_last()) + pixel_chunks(row.len() == 1, row.last())
    }
}

/// The writes for the first `rows` rows of `pixels`, `width` to a row, each
/// row ended by a line break.
pub open spec fn rows_chunks(pixels: Seq<(u8, u8, u8)>, width: nat, rows: nat) -> Seq<Seq<u8>>
    decreases rows,
{
    if rows == 0 {
        Seq::empty()
    } else {
        rows_chunks(pixels, width, (rows - 1) as nat) + row_chunks(
            pixels.subrange((rows - 1) * width, (rows * width) as int),
        ).push(seq![NEWLINE])
    }
}

/// The plain-text image of `pixels`, `width` by `height`, in row-major
/// order: the header, then the rows, soft wrapped at 70 bytes a line.
pub open spec fn ppm_text(width: nat, height: nat, pixels: Seq<(u8, u8, u8)>) -> Seq<u8> {
    wrapped_text(
        header_chunks(width, height) + rows_chunks(pixels, width, height),
        PPM_LINE_WIDTH as nat,
    )
}

/// The image text ends in a line break.
pub proof fn lemma_ppm_ends_in_newline(width: nat, height: nat, pixels: Seq<(u8, u8, u8)>)
    ensures
        ppm_text(width, height, pixels).len() > 0,
        ppm_text(width, height, pixels).last() == NEWLINE,
{
    let chunks = header_chunks(width, height) + rows_chunks(pixels, width, height);
    if height == 0 {
        assert(rows_chunks(pixels, width, 0) == Seq::<Seq<u8>>::empty());
        assert(chunks.last() == seq![NEWLINE, 50u8, 53u8, 53u8, NEWLINE]);
    } else {
        assert(chunks.last() == seq![NEWLINE]);
    }
    lemma_feed_line_end(chunks, PPM_LINE_WIDTH as nat);
    let f = feed(chunks, PPM_LINE_WIDTH as nat);
    assert(f.0 + f.1 =~= f.0);
}

/// Writes `chunk` to `w`, which has taken in `chunks` so far.
fn put(w: &mut MaxWidthWriter, chunk: &[u8], Ghost(chunks): Ghost<Seq<Seq<u8>>>)
    requires
        (old(w).sent(), old(w).pending()) == feed(chunks, old(w).max_width()),
    ensures
        final(w).max_width() == old(w).max_width(),
        (final(w).sent(), final(w).pending()) == feed(chunks.push(chunk@), old(w).max_width()),
{
    w.write(chunk);
    proof {
        assert(chunks.push(chunk@).drop_last() =~= chunks);
    }
}

fn single(b: u8) -> (r: Vec<u8>)
    ensures
        r@ == seq![b],
{
    let r = vec![b];
    proof {
        assert(r@ =~= seq![b]);
    }
    r
}


/// The plain-text image of `pixels`, `width` by `height`, in row-major
/// order (see `ppm_text`). No line of it is longer than 70 bytes, and it
/// ends in a line break.
pub fn encode(width: usize, height: usize, pixels: &Vec<(u8, u8, u8)>) -> (r: Vec<u8>)
    requires
        pixels@.len() == width * height,
    ensures
        r@ == ppm_text(width as nat, height as nat, pixels@),
        lines_fit(r@, PPM_LINE_WIDTH as nat),
        r@.len() > 0 && r@.last() == NEWLINE,
{
    let mut w = MaxWidthWriter::new(PPM_LINE_WIDTH);
    let ghost mut chunks: Seq<Seq<u8>> = Seq::empty();
    let magic = vec![80u8, 51u8, NEWLINE];
    proof {
        assert(magic@ =~= seq![80u8, 51u8, NEWLINE]);
        lemma_step_break(chunks, magic@, PPM_LINE_WIDTH as nat);
    }
    put(&mut w, magic.as_slice(), Ghost(chunks));
    proof {
        chunks = chunks.push(magic@);
    }
    let ws = decimal(width);
    proof {
        lemma_usize_below_pow10();
        lemma_digits_shape(width as nat, 20);
        lemma_step_digits(chunks, ws@, PPM_LINE_WIDTH as nat);
    }
    put(&mut w, ws.as_slice(), Ghost(chunks));
    proof {
        chunks = chunks.push(ws@);
    }
    let sp = single(SPACE);
    proof {
        lemma_step_space(chunks, PPM_LINE_WIDTH as nat);
    }
    put(&mut w, sp.as_slice(), Ghost(chunks));
    proof {
        chunks = chunks.push(sp@);
    }
    let hs = decimal(height);
    proof {
        lemma_digits_shape(height as nat, 20);
        lemma_step_digits(chunks, hs@, PPM_LINE_WIDTH as nat);
    }
    put(&mut w, hs.as_slice(), Ghost(chunks));
    proof {
        chunks = chunks.push(hs@);
    }
    let depth = vec![NEWLINE, 50u8, 53u8, 53u8, NEWLINE];
    proof {
        assert(depth@ =~= seq![NEWLINE, 50u8, 53u8, 53u8, NEWLINE]);
        lemma_step_break(chunks, depth@, PPM_LINE_WIDTH as nat);
    }
    put(&mut w, depth.as_slice(), Ghost(chunks));
    proof {
        chunks = chunks.push(depth@);
        assert(magic@ =~= seq![80u8, 51u8, NEWLINE]);
        assert(depth@ =~= seq![NEWLINE, 50u8, 53u8, 53u8, NEWLINE]);
        assert(chunks =~= header_chunks(width as nat, height as nat) + rows_chunks(
            pixels@,
            width as nat,
            0,
        ));
    }
    let nl = single(NEWLINE);
    let total: usize = pixels.len();
    let mut y: usize = 0;
    while y < height
        invariant
            y <= height,
            pixels@.len() == width * height,
            total == width * height,
            w.max_width() == PPM_LINE_WIDTH,
            sp@ == seq![SPACE],
            nl@ == seq![NEWLINE],
            chunks == header_chunks(width as nat, height as nat) + rows_chunks(
                pixels@,
                width as nat,
                y as nat,
            ),
            (w.sent(), w.pending()) == feed(chunks, PPM_LINE_WIDTH as nat),
            settled(feed(chunks, PPM_LINE_WIDTH as nat), PPM_LINE_WIDTH as nat),
            w.pending().len() == 0,
        decreases height - y,
    {
        let ghost row_start = chunks;
        proof {
            assert(y * width + width <= width * height) by (nonlinear_arith)
                requires
                    y < height,
            ;
            assert(pixels@.subrange(y * width, y * width + 0) =~= Seq::<(u8, u8, u8)>::empty());
            assert(chunks =~= row_start + row_chunks(
                pixels@.subrange(y * width, y * width + 0),
            ));
        }
        let base: usize = y * width;
        let mut x: usize = 0;
        while x < width
            invariant
                y < height,
                x <= width,
                base == y * width,
                base + width <= width * height,
                pixels@.len() == width * height,
                total == width * height,
                w.max_width() == PPM_LINE_WIDTH,
                sp@ == seq![SPACE],
                nl@ == seq![NEWLINE],
                chunks == row_start + row_chunks(pixels@.subrange(base as int, base + x)),
                (w.sent(), w.pending()) == feed(chunks, PPM_LINE_WIDTH as nat),
                settled(feed(chunks, PPM_LINE_WIDTH as nat), PPM_LINE_WIDTH as nat),
                x == 0 ==> w.pending().len() == 0,
            decreases width - x,
        {
            let ghost before = chunks;
            let p = pixels[base + x];
            if x > 0 {
                proof {
                    lemma_step_space(chunks, PPM_LINE_WIDTH as nat);
                }
                put(&mut w, sp.as_slice(), Ghost(chunks));
                proof {
                    chunks = chunks.push(sp@);
                }
            }
            let r = decimal(p.0 as usize);
            proof {
                assert(pow10(3) == 1000) by {
                    reveal_with_fuel(pow10, 4);
                }
                lemma_digits_shape(p.0 as nat, 3);
                lemma_digits_shape(p.1 as nat, 3);
                lemma_digits_shape(p.2 as nat, 3);
                lemma_step_digits(chunks, r@, PPM_LINE_WIDTH as nat);
            }
            put(&mut w, r.as_slice(), Ghost(chunks));
            proof {
                chunks = chunks.push(r@);
            }
            proof {
                lemma_step_space(chunks, PPM_LINE_WIDTH as nat);
            }
            put(&mut w, sp.as_slice(), Ghost(chunks));
            proof {
                chunks = chunks.push(sp@);
            }
            let g = decimal(p.1 as usize);
            proof {
                lemma_step_digits(chunks, g@, PPM_LINE_WIDTH as nat);
            }
            put(&mut w, g.as_slice(), Ghost(chunks));
            proof {
                chunks = chunks.push(g@);
            }
            proof {
                lemma_step_space(chunks, PPM_LINE_WIDTH as nat);
            }
            put(&mut w, sp.as_slice(), Ghost(chunks));
            proof {
                chunks = chunks.push(sp@);
            }
            let b = decimal(p.2 as usize);
            proof {
                lemma_step_digits(chunks, b@, PPM_LINE_WIDTH as nat);
            }
            put(&mut w, b.as_slice(), Ghost(chunks));
            proof {
                chunks = chunks.push(b@);
                let row = pixels@.subrange(base as int, base + x + 1);
                assert(row.drop_last() =~= pixels@.subrange(base as int, base + x));
                assert(row.last() == p);
                assert(chunks =~= before + pixel_chunks(x == 0, p));
                assert(row_chunks(row) == row_chunks(row.drop_last()) + pixel_chunks(x == 0, p));
                assert(chunks =~= row_start + row_chunks(row));
            }
            x = x + 1;
        }
        proof {
            lemma_step_break(chunks, nl@, PPM_LINE_WIDTH as nat);
        }
        put(&mut w, nl.as_slice(), Ghost(chunks));
        proof {
            chunks = chunks.push(nl@);
            assert((y + 1) * width == y * width + width) by (nonlinear_arith);
            let rows = (y + 1) as nat;
            assert(rows_chunks(pixels@, width as nat, rows) == rows_chunks(
                pixels@,
                width as nat,
                y as nat,
            ) + row_chunks(pixels@.subrange(base as int, base + width)).push(seq![NEWLINE]));
            assert(chunks =~= header_chunks(width as nat, height as nat) + rows_chunks(
                pixels@,
                width as nat,
                rows,
            ));
        }
        y = y + 1;
    }
    proof {
        lemma_settled_text(feed(chunks, PPM_LINE_WIDTH as nat), PPM_LINE_WIDTH as nat);
        lemma_ppm_ends_in_newline(width as nat, height as nat, pixels@);
    }
    w.finish()
}

} // verus!
