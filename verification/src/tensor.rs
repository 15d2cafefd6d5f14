//! Data movement and shape discipline of the attention stack: head
//! splitting and concatenation, embedding row gathering, and the shape rules
//! that every matrix operation of the encoder must respect.

use vstd::prelude::*;

verus! {

/// The rows of a vector-of-rows, as sequences.
pub open spec fn rows_view<T>(m: Seq<Vec<T>>) -> Seq<Seq<T>> {
    Seq::new(m.len(), |i: int| m[i]@)
}

/// The heads of a vector-of-matrices, as sequences of rows.
pub open spec fn heads_view<T>(h: Seq<Vec<Vec<T>>>) -> Seq<Seq<Seq<T>>> {
    Seq::new(h.len(), |k: int| rows_view(h[k]@))
}

/// Head `h` of the split: columns `h*hd` up to `(h+1)*hd` of every row.
pub open spec fn spec_split_heads<T>(m: Seq<Seq<T>>, nh: int, hd: int) -> Seq<Seq<Seq<T>>> {
    Seq::new(
        nh as nat,
        |h: int| Seq::new(m.len(), |i: int| Seq::new(hd as nat, |j: int| m[i][h * hd + j])),
    )
}

/// Column-wise concatenation of equally shaped heads.
pub open spec fn spec_concat_heads<T>(hs: Seq<Seq<Seq<T>>>, hd: int) -> Seq<Seq<T>> {
    Seq::new(
        (if hs.len() == 0 {
            0
        } else {
            hs[0].len()
        }) as nat,
        |i: int| Seq::new((hs.len() * hd) as nat, |c: int| hs[c / hd][i][c % hd]),
    )
}

/// Each slot of a head addresses a column of the matrix.
proof fn lemma_head_slot(nh: int, hd: int, cols: int, h: int, j: int)
    requires
        nh > 0,
        hd >= 0,
        cols == nh * hd,
        0 <= h < nh,
        0 <= j < hd,
    ensures
        0 <= h * hd + j < cols,
        h * hd <= cols,
{
    assert(0 <= h * hd + j < cols && h * hd <= cols) by (nonlinear_arith)
        requires
            nh > 0,
            hd >= 0,
            cols == nh * hd,
            0 <= h < nh,
            0 <= j < hd,
    {
    }
}

/// Splitting a matrix into heads and concatenating the heads column-wise
/// reconstructs the matrix exactly: no column is lost, duplicated or moved.
pub proof fn lemma_split_concat_identity<T>(m: Seq<Seq<T>>, nh: int, hd: int)
    requires
        nh > 0,
        hd > 0,
        m.len() > 0,
        forall |i: int| 0 <= i < m.len() ==> (#[trigger] m[i]).len() == nh * hd,
    ensures
        spec_concat_heads(spec_split_heads(m, nh, hd), hd) == m,
{
    let hs = spec_split_heads(m, nh, hd);
    let cc = spec_concat_heads(hs, hd);
    assert(hs.len() == nh);
    assert(hs[0].len() == m.len());
    assert(cc.len() == m.len());
    assert forall |i: int| 0 <= i < m.len() implies cc[i] =~= m[i] by {
        assert(cc[i].len() == nh * hd);
        assert forall |c: int| 0 <= c < m[i].len() implies cc[i][c] == m[i][c] by {
            let h = c / hd;
            let j = c % hd;
            assert(0 <= j < hd && 0 <= h < nh && h * hd + j == c) by (nonlinear_arith)
                requires
                    hd > 0,
                    nh > 0,
                    0 <= c < nh * hd,
                    h == c / hd,
                    j == c % hd,
            {
            }
            assert(cc[i][c] == hs[h][i][j]);
            assert(hs[h][i][j] == m[i][h * hd + j]);
        }
    }
    assert(cc =~~= m);
}

/// Splits a matrix column-wise into `num_heads` equal slices.
pub fn split_heads<T: Copy>(m: &Vec<Vec<T>>, num_heads: usize) -> (r: Vec<Vec<Vec<T>>>)
    requires
        num_heads > 0,
        m@.len() > 0,
        forall |i: int| 0 <= i < m@.len() ==> (#[trigger] m@[i])@.len() == m@[0]@.len(),
        m@[0]@.len() as int % (num_heads as int) == 0,
    ensures
        r@.len() == num_heads,
        heads_view(r@) == spec_split_heads(
            rows_view(m@),
            num_heads as int,
            m@[0]@.len() as int / num_heads as int,
        ),
{
    let ghost gm = rows_view(m@);
    let ghost nh = num_heads as int;
    let rows = m.len();
    let cols = m[0].len();
    let hd = cols / num_heads;
    proof {
        assert(cols == nh * (hd as int)) by (nonlinear_arith)
            requires
                nh > 0,
                hd == cols as int / nh,
                cols as int % nh == 0,
        {
        }
    }
    let ghost target = spec_split_heads(gm, nh, hd as int);
    let mut r: Vec<Vec<Vec<T>>> = Vec::new();
    let mut h: usize = 0;
    while h < num_heads
        invariant
            nh == num_heads as int,
            rows == gm.len(),
            rows == m@.len(),
            gm == rows_view(m@),
            forall |i: int| 0 <= i < gm.len() ==> (#[trigger] gm[i]).len() == cols,
            cols == nh * (hd as int),
            target == spec_split_heads(gm, nh, hd as int),
            h <= num_heads,
            r@.len() == h,
            forall |hh: int| 0 <= hh < h ==> rows_view((#[trigger] r@[hh])@) == target[hh],
        decreases num_heads - h,
    {
        let mut head: Vec<Vec<T>> = Vec::new();
        let mut i: usize = 0;
        while i < rows
            invariant
                nh == num_heads as int,
                rows == gm.len(),
                rows == m@.len(),
                gm == rows_view(m@),
                forall |i0: int| 0 <= i0 < gm.len() ==> (#[trigger] gm[i0]).len() == cols,
                cols == nh * (hd as int),
                target == spec_split_heads(gm, nh, hd as int),
                h < num_heads,
                i <= rows,
                head@.len() == i,
                forall |i0: int| 0 <= i0 < i ==> (#[trigger] head@[i0])@ == target[h as int][i0],
            decreases rows - i,
        {
            let mut row: Vec<T> = Vec::new();
            let mut j: usize = 0;
            while j < hd
                invariant
                    nh == num_heads as int,
                    rows == gm.len(),
                    rows == m@.len(),
                    gm == rows_view(m@),
                    forall |i0: int| 0 <= i0 < gm.len() ==> (#[trigger] gm[i0]).len() == cols,
                    cols == nh * (hd as int),
                    h < num_heads,
                    i < rows,
                    j <= hd,
                    row@.len() == j,
                    forall |j0: int| 0 <= j0 < j ==> #[trigger] row@[j0] == gm[i as int][
                        h as int * (hd as int) + j0],
                decreases hd - j,
            {
                proof {
                    lemma_head_slot(nh, hd as int, cols as int, h as int, j as int);
                    assert(gm[i as int] == m@[i as int]@);
                    assert(m@[i as int]@.len() == cols);
                }
                let v = m[i][h * hd + j];
                row.push(v);
                j += 1;
            }
            proof {
                assert(row@ =~= target[h as int][i as int]);
            }
            head.push(row);
            i += 1;
        }
        proof {
            assert(rows_view(head@) =~= target[h as int]);
        }
        r.push(head);
        h += 1;
    }
    proof {
        assert(heads_view(r@) =~~= target);
    }
    r
}

/// Concatenates equally shaped heads column-wise back into one matrix.
pub fn concat_heads<T: Copy>(heads: &Vec<Vec<Vec<T>>>) -> (r: Vec<Vec<T>>)
    requires
        heads@.len() > 0,
        heads@[0]@.len() > 0,
        forall |h: int| 0 <= h < heads@.len() ==> (#[trigger] heads@[h])@.len()
            == heads@[0]@.len(),
        forall |h: int, i: int| 0 <= h < heads@.len() && 0 <= i < heads@[0]@.len()
            ==> (#[trigger] heads@[h]@[i])@.len() == heads@[0]@[0]@.len(),
    ensures
        rows_view(r@) == spec_concat_heads(heads_view(heads@), heads@[0]@[0]@.len() as int),
{
    let ghost gh = heads_view(heads@);
    let nh = heads.len();
    let rows = heads[0].len();
    let hd = heads[0][0].len();
    let ghost target = spec_concat_heads(gh, hd as int);
    proof {
        assert(target.len() == rows);
    }
    let mut r: Vec<Vec<T>> = Vec::new();
    let mut i: usize = 0;
    while i < rows
        invariant
            nh == heads@.len(),
            rows == heads@[0]@.len(),
            hd == heads@[0]@[0]@.len(),
            gh == heads_view(heads@),
            forall |h0: int| 0 <= h0 < heads@.len() ==> (#[trigger] heads@[h0])@.len() == rows,
            forall |h0: int, i0: int| 0 <= h0 < heads@.len() && 0 <= i0 < rows
                ==> (#[trigger] heads@[h0]@[i0])@.len() == hd,
            target == spec_concat_heads(gh, hd as int),
            target.len() == rows,
            i <= rows,
            r@.len() == i,
            forall |i0: int| 0 <= i0 < i ==> (#[trigger] r@[i0])@ == target[i0],
        decreases rows - i,
    {
        let mut row: Vec<T> = Vec::new();
        let mut h: usize = 0;
        while h < nh
            invariant
                nh == heads@.len(),
                rows == heads@[0]@.len(),
                hd == heads@[0]@[0]@.len(),
                gh == heads_view(heads@),
                forall |h0: int| 0 <= h0 < heads@.len() ==> (#[trigger] heads@[h0])@.len()
                    == rows,
                forall |h0: int, i0: int| 0 <= h0 < heads@.len() && 0 <= i0 < rows
                    ==> (#[trigger] heads@[h0]@[i0])@.len() == hd,
                i < rows,
                h <= nh,
                row@.len() == h * (hd as int),
                forall |c: int| 0 <= c < row@.len() ==> #[trigger] row@[c]
                    == gh[c / (hd as int)][i as int][c % (hd as int)],
            decreases nh - h,
        {
            let mut j: usize = 0;
            while j < hd
                invariant
                    nh == heads@.len(),
                    rows == heads@[0]@.len(),
                    hd == heads@[0]@[0]@.len(),
                    gh == heads_view(heads@),
                    forall |h0: int| 0 <= h0 < heads@.len() ==> (#[trigger] heads@[h0])@.len()
                        == rows,
                    forall |h0: int, i0: int| 0 <= h0 < heads@.len() && 0 <= i0 < rows
                        ==> (#[trigger] heads@[h0]@[i0])@.len() == hd,
                    i < rows,
                    h < nh,
                    j <= hd,
                    row@.len() == h * (hd as int) + j,
                    forall |c: int| 0 <= c < row@.len() ==> #[trigger] row@[c]
                        == gh[c / (hd as int)][i as int][c % (hd as int)],
                decreases hd - j,
            {
                proof {
                    lemma_head_slot(nh as int, hd as int, nh as int * hd as int, h as int, j as int);
                }
                let v = heads[h][i][j];
                row.push(v);
                proof {
                    let c = h as int * (hd as int) + j as int;
                    assert(c / (hd as int) == h as int && c % (hd as int) == j as int)
                        by (nonlinear_arith)
                        requires
                            hd as int > 0,
                            0 <= j < hd as int,
                            c == h as int * (hd as int) + j as int,
                            h >= 0,
                    {
                    }
                    assert(row@[c] == gh[h as int][i as int][j as int]);
                }
                j += 1;
            }
            proof {
                assert((h as int + 1) * (hd as int) == h as int * (hd as int) + (hd as int))
                    by (nonlinear_arith);
            }
            h += 1;
        }
        proof {
            assert(row@ =~= target[i as int]);
        }
        r.push(row);
        i += 1;
    }
    proof {
        assert(rows_view(r@) =~~= target);
    }
    r
}

/// Row `k` of the result: the table row named by `ids[k]`, or the fallback row
/// when the id lies outside the table.
pub open spec fn spec_gather_rows<T>(table: Seq<Seq<T>>, ids: Seq<usize>, fb: int) -> Seq<
    Seq<T>,
> {
    Seq::new(
        ids.len(),
        |k: int|
            if ids[k] < table.len() {
                table[ids[k] as int]
            } else {
                table[fb]
            },
    )
}

/// Copies one table row per id, falling back to the given row for ids outside
/// the table.
pub fn gather_rows<T: Copy>(table: &Vec<Vec<T>>, ids: &Vec<usize>, fallback: usize) -> (r: Vec<
    Vec<T>,
>)
    requires
        (fallback as int) < table@.len(),
    ensures
        rows_view(r@) == spec_gather_rows(rows_view(table@), ids@, fallback as int),
{
    let ghost gt = rows_view(table@);
    let ghost target = spec_gather_rows(gt, ids@, fallback as int);
    let mut r: Vec<Vec<T>> = Vec::new();
    let n = ids.len();
    let mut k: usize = 0;
    while k < n
        invariant
            n == ids@.len(),
            (fallback as int) < table@.len(),
            gt == rows_view(table@),
            target == spec_gather_rows(gt, ids@, fallback as int),
            k <= n,
            r@.len() == k,
            forall |k0: int| 0 <= k0 < k ==> (#[trigger] r@[k0])@ == target[k0],
        decreases n - k,
    {
        let rid = if ids[k] < table.len() {
            ids[k]
        } else {
            fallback
        };
        let src = &table[rid];
        let m = src.len();
        let mut row: Vec<T> = Vec::new();
        let mut j: usize = 0;
        while j < m
            invariant
                m == src@.len(),
                j <= m,
                row@.len() == j,
                forall |j0: int| 0 <= j0 < j ==> #[trigger] row@[j0] == src@[j0],
            decreases m - j,
        {
            row.push(src[j]);
            j += 1;
        }
        proof {
            assert(row@ =~= src@);
            assert(row@ =~= target[k as int]);
        }
        r.push(row);
        k += 1;
    }
    proof {
        assert(rows_view(r@) =~~= target);
    }
    r
}

// ---------------------------------------------------------------------------
// Shape discipline
// ---------------------------------------------------------------------------

/// Shapes accepted by scaled dot-product attention: non-empty inputs, query
/// and key of the same width, key and value with one row per token.
pub open spec fn sdpa_dims_ok(qr: int, qc: int, kr: int, kc: int, vr: int, vc: int) -> bool {
    qr > 0 && kr > 0 && vr > 0 && qc == kc && kr == vr
}

/// Checks the attention shape rule.
pub fn check_sdpa_dims(qr: usize, qc: usize, kr: usize, kc: usize, vr: usize, vc: usize) -> (r:
    bool)
    ensures
        r == sdpa_dims_ok(qr as int, qc as int, kr as int, kc as int, vr as int, vc as int),
{
    qr > 0 && kr > 0 && vr > 0 && qc == kc && kr == vr
}

/// Shapes accepted by multi-head attention: the attention rule, equal widths
/// throughout, and a width divisible by the head count.
pub open spec fn mha_dims_ok(
    qr: int,
    qc: int,
    kr: int,
    kc: int,
    vr: int,
    vc: int,
    nh: int,
) -> bool {
    sdpa_dims_ok(qr, qc, kr, kc, vr, vc) && qc == vc && nh > 0 && qc % nh == 0
}

/// Checks the multi-head attention shape rule.
pub fn check_mha_dims(
    qr: usize,
    qc: usize,
    kr: usize,
    kc: usize,
    vr: usize,
    vc: usize,
    nh: usize,
) -> (r: bool)
    ensures
        r == mha_dims_ok(
            qr as int,
            qc as int,
            kr as int,
            kc as int,
            vr as int,
            vc as int,
            nh as int,
        ),
{
    check_sdpa_dims(qr, qc, kr, kc, vr, vc) && qc == vc && nh > 0 && qc % nh == 0
}

/// The shape of a matrix product: left rows by right columns.
pub open spec fn matmul_shape(a: (int, int), b: (int, int)) -> (int, int) {
    (a.0, b.1)
}

/// Splitting the model width over the heads and concatenating the slices
/// reconstructs the width exactly.
pub proof fn lemma_heads_reconstruct_width(model_dim: int, num_heads: int)
    requires
        model_dim >= 0,
        num_heads > 0,
        model_dim % num_heads == 0,
    ensures
        num_heads * (model_dim / num_heads) == model_dim,
{
    assert(num_heads * (model_dim / num_heads) == model_dim) by (nonlinear_arith)
        requires
            model_dim >= 0,
            num_heads > 0,
            model_dim % num_heads == 0,
    {
    }
}

/// One encoder layer preserves the input shape: self-attention on an
/// `rows x cols` input yields `rows x cols`, the residual additions and row
/// normalizations keep it, and the two feed-forward products lead through
/// `rows x hidden` back to `rows x cols`.
pub proof fn lemma_encoder_layer_shape(rows: int, cols: int, hidden: int)
    requires
        rows > 0,
        cols > 0,
        hidden > 0,
    ensures
        ({
            let scores = matmul_shape((rows, cols), (cols, rows));
            let att = matmul_shape(scores, (rows, cols));
            let ffn_in = matmul_shape(att, (cols, hidden));
            let ffn_out = matmul_shape(ffn_in, (hidden, cols));
            att == (rows, cols) && ffn_out == (rows, cols)
        }),
{
}

} // verus!
