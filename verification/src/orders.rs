//! In which order totals are taken, and which of them may change places.
use crate::blocks::Matrix;
use crate::calm::row_totals;
use crate::engine::{fold, Arith, Op};
use crate::layout::{at_hl, at_hq};
use crate::mlp::{down_total, down_value, up_value};
use crate::output::{quarter_input, quarter_weights, sharded_value};
use crate::places::{FEED, HIDDEN, QUERY};
use crate::quantize::with_part;
use crate::tensor::Tensor;
use vstd::prelude::*;

verus! {

/// The second list is the first with its first two values in the other order.
pub open spec fn turned(s: Seq<u32>, t: Seq<u32>) -> bool {
    &&& s.len() == t.len()
    &&& s.len() >= 2
    &&& t[0] == s[1]
    &&& t[1] == s[0]
    &&& forall|k: int| 2 <= k < s.len() ==> #[trigger] t[k] == s[k]
}

/// A total by `op` does not depend on the order of the first two values.
pub open spec fn swaps(g: Arith, op: Op) -> bool {
    forall|s: Seq<u32>, t: Seq<u32>| #[trigger] turned(s, t) ==> fold(g, op, s) == fold(g, op, t)
}

/// A row meets in `y` and `y_scales`, as part `other`, what it meets in `x` and `x_scales` as part
/// `part`, from columns `from` and `start` on.
spec fn meets(
    of: Matrix,
    x: Tensor,
    x_scales: Tensor,
    y: Tensor,
    y_scales: Tensor,
    r: int,
    start: int,
    part: int,
    from: int,
    other: int,
) -> bool {
    &&& forall|k: int|
        0 <= k < of.span() ==> #[trigger] y.at(with_part(of.spot(r, from + k), other)) == x.at(
            with_part(of.spot(r, start + k), part),
        )
    &&& forall|i: int|
        #![trigger y_scales.at(with_part(of.spot(r, from + 960 * i), other))]
        0 <= i < of.groups() ==> y_scales.at(with_part(of.spot(r, from + 960 * i), other))
            == x_scales.at(with_part(of.spot(r, start + 960 * i), part))
}

/// Rows that meet the same have the same total.
proof fn lemma_same_total(
    g: Arith,
    of: Matrix,
    x: Tensor,
    x_scales: Tensor,
    y: Tensor,
    y_scales: Tensor,
    weight: Tensor,
    scale: Tensor,
    r: int,
    start: int,
    part: int,
    from: int,
    other: int,
)
    requires
        meets(of, x, x_scales, y, y_scales, r, start, part, from, other),
        of.weight_row(weight, r, start) == of.weight_row(weight, r, from),
        of.scale_row(scale, r, start) == of.scale_row(scale, r, from),
    ensures
        of.row_total(g, y, y_scales, weight, scale, r, from, other) == of.row_total(
            g,
            x,
            x_scales,
            weight,
            scale,
            r,
            start,
            part,
        ),
{
    assert(of.part_row(y, r, from, other) =~= of.part_row(x, r, start, part)) by {
        assert forall|k: int| 0 <= k < of.span() implies #[trigger] of.part_row(
            y,
            r,
            from,
            other,
        )[k] == of.part_row(x, r, start, part)[k] by {
            assert(y.at(with_part(of.spot(r, from + k), other)) == x.at(
                with_part(of.spot(r, start + k), part),
            ));
        }
    }
    assert(of.part_scale_row(y_scales, r, from, other) =~= of.part_scale_row(
        x_scales,
        r,
        start,
        part,
    )) by {
        assert forall|i: int| 0 <= i < of.groups() implies #[trigger] of.part_scale_row(
            y_scales,
            r,
            from,
            other,
        )[i] == of.part_scale_row(x_scales, r, start, part)[i] by {
            assert(y_scales.at(with_part(of.spot(r, from + 960 * i), other)) == x_scales.at(
                with_part(of.spot(r, start + 960 * i), part),
            ));
        }
    }
}

/// A row of an up projection stays as it is when the high and the low parts change places, scales
/// included: the totals of the parts are added up in the slice.
pub proof fn law_up_parts_may_swap(
    g: Arith,
    x: Tensor,
    x_scales: Tensor,
    y: Tensor,
    y_scales: Tensor,
    weight: Tensor,
    scale: Tensor,
    l: int,
)
    requires
        swaps(g, Op::TotalInSlice),
        forall|h: int, part: int|
            0 <= h < HIDDEN && 0 <= part < 2 ==> #[trigger] y.at(with_part(at_hl(h, l), part))
                == x.at(with_part(at_hl(h, l), 1 - part)),
        forall|h: int, part: int|
            0 <= h < HIDDEN && 0 <= part < 2 ==> #[trigger] y_scales.at(
                with_part(at_hl(h, l), part),
            ) == x_scales.at(with_part(at_hl(h, l), 1 - part)),
    ensures
        up_value(g, y, y_scales, weight, scale, l) == up_value(g, x, x_scales, weight, scale, l),
{
    let of = Matrix::Up;
    let a = Seq::new(2, |part: int| of.row_total(g, x, x_scales, weight, scale, l, 0, part));
    let b = Seq::new(2, |part: int| of.row_total(g, y, y_scales, weight, scale, l, 0, part));
    assert forall|part: int| 0 <= part < 2 implies #[trigger] b[part] == a[1 - part] by {
        assert forall|k: int| 0 <= k < of.span() implies #[trigger] y.at(
            with_part(of.spot(l, 0 + k), part),
        ) == x.at(with_part(of.spot(l, 0 + k), 1 - part)) by {
            assert(y.at(with_part(at_hl(k, l), part)) == x.at(with_part(at_hl(k, l), 1 - part)));
        }
        assert forall|i: int|
            #![trigger y_scales.at(with_part(of.spot(l, 0 + 960 * i), part))]
            0 <= i < of.groups() implies y_scales.at(with_part(of.spot(l, 0 + 960 * i), part))
            == x_scales.at(with_part(of.spot(l, 0 + 960 * i), 1 - part)) by {
            let h = 960 * i;
            assert(y_scales.at(with_part(at_hl(h, l), part)) == x_scales.at(
                with_part(at_hl(h, l), 1 - part),
            ));
        }
        lemma_same_total(
            g,
            of,
            x,
            x_scales,
            y,
            y_scales,
            weight,
            scale,
            l,
            0,
            1 - part,
            0,
            part,
        );
    }
    assert(b[0] == a[1] && b[1] == a[0]);
    assert(turned(a, b));
}

/// The total of both halves of a row of the down projection for a part does not change when the
/// halves of that part change places, where the weights of both halves are the same.
proof fn lemma_down_total_swaps(
    g: Arith,
    x: Tensor,
    x_scales: Tensor,
    y: Tensor,
    y_scales: Tensor,
    weight: Tensor,
    scale: Tensor,
    h: int,
    part: int,
)
    requires
        swaps(g, Op::TotalAcrossSlices),
        forall|l: int|
            0 <= l < 7680 ==> #[trigger] weight.at(at_hl(h, l)) == weight.at(at_hl(h, 7680 + l)),
        forall|l: int|
            0 <= l < 7680 ==> #[trigger] scale.at(at_hl(h, l)) == scale.at(at_hl(h, 7680 + l)),
        forall|l: int|
            #![trigger y.at(with_part(at_hl(h, l), part))]
            0 <= l < 7680 ==> {
                let (p, q) = (
                    with_part(at_hl(h, l), part),
                    with_part(at_hl(h, 7680 + l), part),
                );
                &&& y.at(p) == x.at(q)
                &&& y.at(q) == x.at(p)
            },
        forall|l: int|
            #![trigger y_scales.at(with_part(at_hl(h, l), part))]
            0 <= l < 7680 ==> {
                let (p, q) = (
                    with_part(at_hl(h, l), part),
                    with_part(at_hl(h, 7680 + l), part),
                );
                &&& y_scales.at(p) == x_scales.at(q)
                &&& y_scales.at(q) == x_scales.at(p)
            },
    ensures
        down_total(g, y, y_scales, weight, scale, h, part) == down_total(
            g,
            x,
            x_scales,
            weight,
            scale,
            h,
            part,
        ),
{
    let of = Matrix::Down;
    assert(of.weight_row(weight, h, 0) =~= of.weight_row(weight, h, 7680)) by {
        assert forall|k: int| 0 <= k < 7680 implies #[trigger] of.weight_row(weight, h, 0)[k]
            == of.weight_row(weight, h, 7680)[k] by {
            assert(weight.at(at_hl(h, k)) == weight.at(at_hl(h, 7680 + k)));
        }
    }
    assert(of.scale_row(scale, h, 0) =~= of.scale_row(scale, h, 7680)) by {
        assert forall|b: int| 0 <= b < 480 implies #[trigger] of.scale_row(scale, h, 0)[b]
            == of.scale_row(scale, h, 7680)[b] by {
            let l = 16 * b;
            assert(scale.at(at_hl(h, l)) == scale.at(at_hl(h, 7680 + l)));
        }
    }
    assert forall|k: int| 0 <= k < 7680 implies #[trigger] y.at(
        with_part(of.spot(h, 0 + k), part),
    ) == x.at(with_part(of.spot(h, 7680 + k), part)) by {
        assert(y.at(with_part(at_hl(h, k), part)) == x.at(with_part(at_hl(h, 7680 + k), part)));
    }
    assert forall|k: int| 0 <= k < 7680 implies #[trigger] y.at(
        with_part(of.spot(h, 7680 + k), part),
    ) == x.at(with_part(of.spot(h, 0 + k), part)) by {
        assert(y.at(with_part(at_hl(h, k), part)) == x.at(with_part(at_hl(h, 7680 + k), part)));
    }
    assert forall|i: int|
        #![trigger y_scales.at(with_part(of.spot(h, 0 + 960 * i), part))]
        0 <= i < 8 implies y_scales.at(with_part(of.spot(h, 0 + 960 * i), part)) == x_scales.at(
        with_part(of.spot(h, 7680 + 960 * i), part),
    ) by {
        let l = 960 * i;
        assert(y_scales.at(with_part(at_hl(h, l), part)) == x_scales.at(
            with_part(at_hl(h, 7680 + l), part),
        ));
    }
    assert forall|i: int|
        #![trigger y_scales.at(with_part(of.spot(h, 7680 + 960 * i), part))]
        0 <= i < 8 implies y_scales.at(with_part(of.spot(h, 7680 + 960 * i), part)) == x_scales.at(
        with_part(of.spot(h, 0 + 960 * i), part),
    ) by {
        let l = 960 * i;
        assert(y_scales.at(with_part(at_hl(h, l), part)) == x_scales.at(
            with_part(at_hl(h, 7680 + l), part),
        ));
    }
    lemma_same_total(g, of, x, x_scales, y, y_scales, weight, scale, h, 7680, part, 0, part);
    lemma_same_total(g, of, x, x_scales, y, y_scales, weight, scale, h, 0, part, 7680, part);
    let a = Seq::new(
        2,
        |half: int| of.row_total(g, x, x_scales, weight, scale, h, 7680 * half, part),
    );
    let b = Seq::new(
        2,
        |half: int| of.row_total(g, y, y_scales, weight, scale, h, 7680 * half, part),
    );
    assert(b[0] == a[1] && b[1] == a[0]);
    assert(turned(a, b));
}

/// Where the weights of both halves of a row of the down projection are the same, the halves of one
/// part may change places and those of the other part stay: the two halves of each part are added
/// up across the slices before the two parts are.
pub proof fn law_down_halves_add_up_before_parts(
    g: Arith,
    x: Tensor,
    x_scales: Tensor,
    y: Tensor,
    y_scales: Tensor,
    weight: Tensor,
    scale: Tensor,
    h: int,
    part: int,
)
    requires
        swaps(g, Op::TotalAcrossSlices),
        0 <= part < 2,
        forall|l: int|
            0 <= l < 7680 ==> #[trigger] weight.at(at_hl(h, l)) == weight.at(at_hl(h, 7680 + l)),
        forall|l: int|
            0 <= l < 7680 ==> #[trigger] scale.at(at_hl(h, l)) == scale.at(at_hl(h, 7680 + l)),
        forall|l: int|
            #![trigger y.at(with_part(at_hl(h, l), part))]
            0 <= l < 7680 ==> {
                let (p, q) = (
                    with_part(at_hl(h, l), part),
                    with_part(at_hl(h, 7680 + l), part),
                );
                &&& y.at(p) == x.at(q)
                &&& y.at(q) == x.at(p)
            },
        forall|l: int|
            #![trigger y_scales.at(with_part(at_hl(h, l), part))]
            0 <= l < 7680 ==> {
                let (p, q) = (
                    with_part(at_hl(h, l), part),
                    with_part(at_hl(h, 7680 + l), part),
                );
                &&& y_scales.at(p) == x_scales.at(q)
                &&& y_scales.at(q) == x_scales.at(p)
            },
        forall|l: int|
            0 <= l < FEED ==> #[trigger] y.at(with_part(at_hl(h, l), 1 - part)) == x.at(
                with_part(at_hl(h, l), 1 - part),
            ),
        forall|l: int|
            0 <= l < FEED ==> #[trigger] y_scales.at(with_part(at_hl(h, l), 1 - part))
                == x_scales.at(with_part(at_hl(h, l), 1 - part)),
    ensures
        down_value(g, y, y_scales, weight, scale, h) == down_value(
            g,
            x,
            x_scales,
            weight,
            scale,
            h,
        ),
{
    let of = Matrix::Down;
    let o = 1 - part;
    lemma_down_total_swaps(g, x, x_scales, y, y_scales, weight, scale, h, part);
    assert(down_total(g, y, y_scales, weight, scale, h, o) == down_total(
        g,
        x,
        x_scales,
        weight,
        scale,
        h,
        o,
    )) by {
        let a = Seq::new(
            2,
            |half: int| of.row_total(g, x, x_scales, weight, scale, h, 7680 * half, o),
        );
        let b = Seq::new(
            2,
            |half: int| of.row_total(g, y, y_scales, weight, scale, h, 7680 * half, o),
        );
        assert forall|half: int| 0 <= half < 2 implies #[trigger] b[half] == a[half] by {
            let from = 7680 * half;
            assert forall|k: int| 0 <= k < 7680 implies #[trigger] y.at(
                with_part(of.spot(h, from + k), o),
            ) == x.at(with_part(of.spot(h, from + k), o)) by {
                assert(y.at(with_part(at_hl(h, from + k), o)) == x.at(
                    with_part(at_hl(h, from + k), o),
                ));
            }
            assert forall|i: int|
                #![trigger y_scales.at(with_part(of.spot(h, from + 960 * i), o))]
                0 <= i < 8 implies y_scales.at(with_part(of.spot(h, from + 960 * i), o))
                == x_scales.at(with_part(of.spot(h, from + 960 * i), o)) by {
                let l = from + 960 * i;
                assert(y_scales.at(with_part(at_hl(h, l), o)) == x_scales.at(
                    with_part(at_hl(h, l), o),
                ));
            }
            lemma_same_total(g, of, x, x_scales, y, y_scales, weight, scale, h, from, o, from, o);
        }
        assert(a =~= b);
    }
    let p = Seq::new(2, |i: int| down_total(g, x, x_scales, weight, scale, h, i));
    let q = Seq::new(2, |i: int| down_total(g, y, y_scales, weight, scale, h, i));
    assert(p =~= q);
}

/// A row of the down projection stays as it is when the high and the low parts change places,
/// scales included: the totals of the parts are added up in the slice.
pub proof fn law_down_parts_may_swap(
    g: Arith,
    x: Tensor,
    x_scales: Tensor,
    y: Tensor,
    y_scales: Tensor,
    weight: Tensor,
    scale: Tensor,
    h: int,
)
    requires
        swaps(g, Op::TotalInSlice),
        forall|l: int, part: int|
            0 <= l < FEED && 0 <= part < 2 ==> #[trigger] y.at(with_part(at_hl(h, l), part))
                == x.at(with_part(at_hl(h, l), 1 - part)),
        forall|l: int, part: int|
            0 <= l < FEED && 0 <= part < 2 ==> #[trigger] y_scales.at(with_part(at_hl(h, l), part))
                == x_scales.at(with_part(at_hl(h, l), 1 - part)),
    ensures
        down_value(g, y, y_scales, weight, scale, h) == down_value(
            g,
            x,
            x_scales,
            weight,
            scale,
            h,
        ),
{
    let of = Matrix::Down;
    let p = Seq::new(2, |i: int| down_total(g, x, x_scales, weight, scale, h, i));
    let q = Seq::new(2, |i: int| down_total(g, y, y_scales, weight, scale, h, i));
    assert forall|part: int| 0 <= part < 2 implies #[trigger] q[part] == p[1 - part] by {
        let o = 1 - part;
        let a = Seq::new(
            2,
            |half: int| of.row_total(g, x, x_scales, weight, scale, h, 7680 * half, o),
        );
        let b = Seq::new(
            2,
            |half: int| of.row_total(g, y, y_scales, weight, scale, h, 7680 * half, part),
        );
        assert forall|half: int| 0 <= half < 2 implies #[trigger] b[half] == a[half] by {
            let from = 7680 * half;
            assert forall|k: int| 0 <= k < 7680 implies #[trigger] y.at(
                with_part(of.spot(h, from + k), part),
            ) == x.at(with_part(of.spot(h, from + k), o)) by {
                assert(y.at(with_part(at_hl(h, from + k), part)) == x.at(
                    with_part(at_hl(h, from + k), o),
                ));
            }
            assert forall|i: int|
                #![trigger y_scales.at(with_part(of.spot(h, from + 960 * i), part))]
                0 <= i < 8 implies y_scales.at(with_part(of.spot(h, from + 960 * i), part))
                == x_scales.at(with_part(of.spot(h, from + 960 * i), o)) by {
                let l = from + 960 * i;
                assert(y_scales.at(with_part(at_hl(h, l), part)) == x_scales.at(
                    with_part(at_hl(h, l), o),
                ));
            }
            lemma_same_total(
                g,
                of,
                x,
                x_scales,
                y,
                y_scales,
                weight,
                scale,
                h,
                from,
                o,
                from,
                part,
            );
        }
        assert(a =~= b);
    }
    assert(q[0] == p[1] && q[1] == p[0]);
    assert(turned(p, q));
}

/// An output row stays as it is when its first two quarters change places, weights and query
/// features alike, where a total across slices does not depend on the order of the first two.
pub proof fn law_quarters_may_swap(
    g: Arith,
    x: Tensor,
    y: Tensor,
    weight: Tensor,
    other: Tensor,
    weight_scale: Tensor,
    h: int,
)
    requires
        swaps(g, Op::TotalAcrossSlices),
        forall|q: int|
            #![trigger y.at(at_hq(h, q))]
            0 <= q < 1024 ==> {
                let (p, r) = (at_hq(h, q), at_hq(h, 1024 + q));
                &&& y.at(p) == x.at(r)
                &&& y.at(r) == x.at(p)
                &&& other.at(p) == weight.at(r)
                &&& other.at(r) == weight.at(p)
            },
        forall|q: int|
            #![trigger y.at(at_hq(h, q))]
            2048 <= q < QUERY ==> {
                let p = at_hq(h, q);
                &&& y.at(p) == x.at(p)
                &&& other.at(p) == weight.at(p)
            },
    ensures
        sharded_value(g, y, other, weight_scale, h) == sharded_value(
            g,
            x,
            weight,
            weight_scale,
            h,
        ),
{
    let a = row_totals(g, x, weight, h);
    let b = row_totals(g, y, other, h);
    assert(b[0] == a[1] && b[1] == a[0]) by {
        assert forall|k: int| 0 <= k < 1024 implies {
            &&& #[trigger] quarter_input(y, h, 0)[k] == quarter_input(x, h, 1)[k]
            &&& quarter_input(y, h, 1)[k] == quarter_input(x, h, 0)[k]
            &&& quarter_weights(other, h, 0)[k] == quarter_weights(weight, h, 1)[k]
            &&& quarter_weights(other, h, 1)[k] == quarter_weights(weight, h, 0)[k]
        } by {
            assert(y.at(at_hq(h, k)) == x.at(at_hq(h, 1024 + k)));
        }
        assert(quarter_input(y, h, 0) =~= quarter_input(x, h, 1)) by {
            assert forall|k: int| 0 <= k < 1024 implies quarter_input(y, h, 0)[k]
                == #[trigger] quarter_input(x, h, 1)[k] by {
                assert(quarter_input(y, h, 0)[k] == quarter_input(x, h, 1)[k]);
            }
        }
        assert forall|k: int| 0 <= k < 1024 implies #[trigger] quarter_input(y, h, 1)[k]
            == quarter_input(x, h, 0)[k] by {
            assert(quarter_input(y, h, 0)[k] == quarter_input(x, h, 1)[k]);
        }
        assert(quarter_input(y, h, 1) =~= quarter_input(x, h, 0));
        assert forall|k: int| 0 <= k < 1024 implies #[trigger] quarter_weights(other, h, 0)[k]
            == quarter_weights(weight, h, 1)[k] by {
            assert(quarter_input(y, h, 0)[k] == quarter_input(x, h, 1)[k]);
        }
        assert(quarter_weights(other, h, 0) =~= quarter_weights(weight, h, 1));
        assert forall|k: int| 0 <= k < 1024 implies #[trigger] quarter_weights(other, h, 1)[k]
            == quarter_weights(weight, h, 0)[k] by {
            assert(quarter_input(y, h, 0)[k] == quarter_input(x, h, 1)[k]);
        }
        assert(quarter_weights(other, h, 1) =~= quarter_weights(weight, h, 0));
    }
    assert forall|i: int| 2 <= i < 4 implies #[trigger] b[i] == a[i] by {
        assert forall|k: int| 0 <= k < 1024 implies #[trigger] quarter_input(y, h, i)[k]
            == quarter_input(x, h, i)[k] by {
            assert(y.at(at_hq(h, 1024 * i + k)) == x.at(at_hq(h, 1024 * i + k)));
        }
        assert(quarter_input(y, h, i) =~= quarter_input(x, h, i));
        assert forall|k: int| 0 <= k < 1024 implies #[trigger] quarter_weights(other, h, i)[k]
            == quarter_weights(weight, h, i)[k] by {
            assert(y.at(at_hq(h, 1024 * i + k)) == x.at(at_hq(h, 1024 * i + k)));
        }
        assert(quarter_weights(other, h, i) =~= quarter_weights(weight, h, i));
    }
    assert(turned(a, b));
}

} // verus!
