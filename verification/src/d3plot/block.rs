//! Self-describing result arrays.

use crate::text::{push_dec, same_text};
use crate::text::dec;
use vstd::prelude::*;

verus! {

/// A flat, row-major array of doubles with its shape (`dims`, outermost axis
/// first) and, when known, the names of the innermost axis (`components`).
#[derive(Debug, Clone)]
pub struct ResultBlock {
    pub data: Vec<u64>,
    pub dims: Vec<usize>,
    pub components: Vec<String>,
}

/// The product of the numbers from position `i` on.
pub open spec fn product_from(dims: Seq<usize>, i: int) -> nat
    decreases dims.len() - i,
{
    if i >= dims.len() {
        1
    } else {
        dims[i] as nat * product_from(dims, i + 1)
    }
}

/// How many of the positions `first`, `first + step`, … lie below `len`.
pub open spec fn stride_count(len: nat, first: nat, step: nat) -> nat {
    if first >= len {
        0
    } else {
        ((len - first + step - 1) / step as int) as nat
    }
}

/// The first position of `name` among the labels from `i` on.
pub open spec fn label_position(labels: Seq<String>, name: Seq<char>, i: int) -> Option<int>
    decreases labels.len() - i,
{
    if i >= labels.len() {
        None
    } else if labels[i]@ == name {
        Some(i)
    } else {
        label_position(labels, name, i + 1)
    }
}

impl ResultBlock {
    /// A block with the given shape and no labels.
    pub fn new(dims: Vec<usize>, data: Vec<u64>) -> (r: Self)
        ensures
            r.data == data,
            r.dims == dims,
            r.components@.len() == 0,
    {
        ResultBlock { data, dims, components: Vec::new() }
    }

    /// A block whose innermost axis carries labels.
    pub fn named(dims: Vec<usize>, components: Vec<String>, data: Vec<u64>) -> (r: Self)
        ensures
            r == (ResultBlock { data, dims, components }),
    {
        ResultBlock { data, dims, components }
    }

    /// The flat, row-major data.
    pub fn data(&self) -> (r: &[u64])
        ensures
            r@ == self.data@,
    {
        self.data.as_slice()
    }

    /// The flat data, taken out of the block.
    pub fn into_data(self) -> (r: Vec<u64>)
        ensures
            r == self.data,
    {
        self.data
    }

    /// The shape, outermost axis first.
    pub fn dims(&self) -> (r: &[usize])
        ensures
            r@ == self.dims@,
    {
        self.dims.as_slice()
    }

    /// Labels of the innermost axis, or none.
    pub fn components(&self) -> (r: &[String])
        ensures
            r@ == self.components@,
    {
        self.components.as_slice()
    }

    /// Number of values.
    pub fn len(&self) -> (r: usize)
        ensures
            r == self.data@.len(),
    {
        self.data.len()
    }

    pub fn is_empty(&self) -> (r: bool)
        ensures
            r == (self.data@.len() == 0),
    {
        self.data.len() == 0
    }

    /// Number of states: the outermost dimension, or 0 without dimensions.
    pub fn n_states(&self) -> (r: usize)
        ensures
            r == (if self.dims@.len() == 0 {
                0
            } else {
                self.dims@[0]
            }),
    {
        if self.dims.len() == 0 {
            0
        } else {
            self.dims[0]
        }
    }

    /// The extent of the innermost axis, or 0 without dimensions.
    pub open spec fn width(self) -> usize {
        if self.dims@.len() == 0 {
            0
        } else {
            self.dims@.last()
        }
    }

    /// The extent of the innermost axis, or 0 without dimensions.
    pub fn last_dim(&self) -> (r: usize)
        ensures
            r == self.width(),
    {
        let n: usize = self.dims.len();
        if n == 0 {
            0
        } else {
            self.dims[n - 1]
        }
    }

    /// The values of outermost index `i`, if they are all there.
    pub open spec fn state_values(self, i: int) -> Option<Seq<u64>> {
        let per = product_from(self.dims@, 1);
        if self.dims@.len() >= 2 && i < self.dims@[0] && (i + 1) * per <= self.data@.len() {
            Some(self.data@.subrange(i * per, (i + 1) * per))
        } else {
            None
        }
    }

    /// The values of the component `name`, if it is known.
    pub open spec fn component_values(self, name: Seq<char>) -> Option<Seq<u64>> {
        match label_position(self.components@, name, 0) {
            Some(first) if self.dims@.len() > 0 => if self.width() == 0 {
                Some(Seq::empty())
            } else {
                Some(
                    Seq::new(
                        stride_count(self.data@.len(), first as nat, self.width() as nat),
                        |k: int| self.data@[first + k * self.width()],
                    ),
                )
            },
            _ => None,
        }
    }

    /// The values of outermost index `i`. `None` when there is no such index, when
    /// the values are not all there, or when the block has less than two dimensions.
    pub fn state(&self, i: usize) -> (r: Option<&[u64]>)
        ensures
            r is Some <==> self.state_values(i as int) is Some,
            r matches Some(s) ==> self.state_values(i as int) == Some(s@),
    {
        if self.dims.len() < 2 || i >= self.dims[0] {
            return None;
        }
        let len: usize = self.data.len();
        let ghost total = product_from(self.dims@, 1);
        match bounded_product(self.dims.as_slice(), len) {
            None => {
                assert((i + 1) * total >= total) by (nonlinear_arith)
                    requires
                        i >= 0,
                ;
                None
            },
            Some(stride) => {
                assert((i + 1) * total == i * total + total) by (nonlinear_arith);
                if stride == 0 {
                    assert(i * total == 0) by (nonlinear_arith)
                        requires
                            total == 0,
                    ;
                    Some(vstd::slice::slice_subrange(self.data.as_slice(), 0, 0))
                } else if i >= len / stride {
                    assert((i + 1) * total > len) by (nonlinear_arith)
                        requires
                            i >= len / stride,
                            stride == total,
                            stride > 0,
                    ;
                    None
                } else {
                    assert((i + 1) * total <= len) by (nonlinear_arith)
                        requires
                            i + 1 <= len / stride,
                            stride == total,
                            stride > 0,
                    ;
                    let a: usize = i * stride;
                    Some(vstd::slice::slice_subrange(self.data.as_slice(), a, a + stride))
                }
            },
        }
    }

    /// The values of the component `name` over the whole block. `None` for an
    /// unknown name, or without dimensions.
    pub fn component(&self, name: &str) -> (r: Option<Vec<u64>>)
        ensures
            r is Some <==> self.component_values(name@) is Some,
            r matches Some(v) ==> self.component_values(name@) == Some(v@),
    {
        let mut i: usize = 0;
        while i < self.components.len() && !same_text(self.components[i].as_str(), name)
            invariant
                i <= self.components@.len(),
                label_position(self.components@, name@, i as int) == label_position(
                    self.components@,
                    name@,
                    0,
                ),
            decreases self.components@.len() - i,
        {
            i = i + 1;
        }
        if i >= self.components.len() || self.dims.len() == 0 {
            return None;
        }
        assert(label_position(self.components@, name@, 0) == Some(i as int));
        let step: usize = self.last_dim();
        if step == 0 {
            return Some(Vec::new());
        }
        Some(every(self.data.as_slice(), i, step))
    }
}

/// The elements of `data` at `first`, `first + step`, ….
pub fn every<T: Copy>(data: &[T], first: usize, step: usize) -> (r: Vec<T>)
    requires
        step > 0,
    ensures
        r@ == Seq::new(
            stride_count(data@.len(), first as nat, step as nat),
            |k: int| data@[first + k * step],
        ),
{
    let len: usize = data.len();
    let ghost n = stride_count(len as nat, first as nat, step as nat);
    let mut out: Vec<T> = Vec::new();
    let mut at: usize = first;
    proof {
        lemma_stride_count(len as nat, first as nat, step as nat, 0);
        assert(0 * step == 0);
    }
    while at < len
        invariant
            len == data@.len(),
            step > 0,
            n == stride_count(len as nat, first as nat, step as nat),
            at < len ==> at == first + out@.len() * step,
            at >= len ==> out@.len() == n,
            at < len ==> out@.len() < n,
            forall|k: int| 0 <= k < out@.len() ==> out@[k] == data@[first + k * step],
        decreases
                if at < len {
                    len - at
                } else {
                    0
                },
    {
        out.push(data[at]);
        proof {
            lemma_stride_count(len as nat, first as nat, step as nat, out@.len());
            let c = out@.len();
            assert(c * step == (c - 1) * step + step) by (nonlinear_arith);
        }
        if step >= len - at {
            at = len;
        } else {
            at = at + step;
        }
    }
    assert(out@ =~= Seq::new(n, |k: int| data@[first + k * step]));
    out
}


proof fn lemma_stride_count(len: nat, first: nat, step: nat, k: nat)
    requires
        step > 0,
    ensures
        first + k * step < len <==> k < stride_count(len, first, step),
{
    if first < len {
        let n = stride_count(len, first, step) as int;
        let m = len - first + step - 1;
        vstd::arithmetic::div_mod::lemma_fundamental_div_mod(m, step as int);
        assert(n * step <= m < n * step + step) by (nonlinear_arith)
            requires
                m == step * n + m % (step as int),
                0 <= m % (step as int) < step,
        ;
        if k < n {
            assert(k * step + step <= n * step) by (nonlinear_arith)
                requires
                    k + 1 <= n,
                    step > 0,
            ;
        } else {
            assert(n * step <= k * step) by (nonlinear_arith)
                requires
                    n <= k,
                    step > 0,
            ;
        }
    } else {
        assert(k * step >= 0) by (nonlinear_arith)
            requires
                k >= 0,
                step > 0,
        ;
    }
}

/// The product of all dimensions but the first, when it is no more than `limit`.
fn bounded_product(dims: &[usize], limit: usize) -> (r: Option<usize>)
    requires
        dims@.len() >= 1,
    ensures
        r is Some <==> product_from(dims@, 1) <= limit,
        r matches Some(p) ==> p == product_from(dims@, 1),
{
    let n: usize = dims.len();
    let mut i: usize = n;
    let mut p: usize = 1;
    let mut over: bool = 1 > limit;
    while i > 1
        invariant
            1 <= i <= n,
            n == dims@.len(),
            over <==> product_from(dims@, i as int) > limit,
            !over ==> p == product_from(dims@, i as int),
        decreases i,
    {
        i = i - 1;
        let d: usize = dims[i];
        let ghost rest = product_from(dims@, i + 1);
        assert(product_from(dims@, i as int) == d * rest);
        if d == 0 {
            assert(d * rest == 0) by (nonlinear_arith)
                requires
                    d == 0,
            ;
            over = false;
            p = 0;
        } else if over {
            assert(d * rest >= rest) by (nonlinear_arith)
                requires
                    d >= 1,
                    rest >= 0,
            ;
        } else if p > limit / d {
            assert(d * p > limit) by (nonlinear_arith)
                requires
                    p > limit / d,
                    d > 0,
            ;
            over = true;
        } else {
            assert(d * p <= limit) by (nonlinear_arith)
                requires
                    p <= limit / d,
                    d > 0,
            ;
            p = d * p;
        }
    }
    if over {
        None
    } else {
        Some(p)
    }
}

/// The label of value `i` of an element record.
pub open spec fn component_name(i: nat) -> Seq<char> {
    if i == 0 {
        "sigma_xx"@
    } else if i == 1 {
        "sigma_yy"@
    } else if i == 2 {
        "sigma_zz"@
    } else if i == 3 {
        "sigma_xy"@
    } else if i == 4 {
        "sigma_yz"@
    } else if i == 5 {
        "sigma_zx"@
    } else if i == 6 {
        "eff_plastic_strain"@
    } else {
        "hist_"@ + dec((i - 7) as nat)
    }
}

/// The labels of an element record of `vars` values: six stresses, the effective
/// plastic strain, then numbered history variables.
pub fn element_component_names(vars: usize) -> (r: Vec<String>)
    ensures
        r@.len() == vars,
        forall|i: int| 0 <= i < vars ==> (#[trigger] r@[i])@ == component_name(i as nat),
{
    let mut out: Vec<String> = Vec::new();
    for i in 0..vars
        invariant
            out@.len() == i,
            forall|k: int| 0 <= k < i ==> (#[trigger] out@[k])@ == component_name(k as nat),
    {
        let name: String = if i == 0 {
            String::from_str("sigma_xx")
        } else if i == 1 {
            String::from_str("sigma_yy")
        } else if i == 2 {
            String::from_str("sigma_zz")
        } else if i == 3 {
            String::from_str("sigma_xy")
        } else if i == 4 {
            String::from_str("sigma_yz")
        } else if i == 5 {
            String::from_str("sigma_zx")
        } else if i == 6 {
            String::from_str("eff_plastic_strain")
        } else {
            let mut s: String = String::from_str("hist_");
            push_dec(&mut s, (i - 7) as u64);
            s
        };
        out.push(name);
    }
    out
}

} // verus!
