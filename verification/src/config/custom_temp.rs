//! A temperature computed from other temperatures.
use vstd::prelude::*;
use crate::text::clone_strings;
use crate::app_graph::AppGraph;
use crate::hardware::Hardware;
use crate::node::{node_made, IsValid, Node, NodeType, ToNode};
use crate::hardware::Value;
use crate::update::UpdateError;
use super::affine::trunc_div;

verus! {

/// How the input temperatures are combined.
#[derive(Clone, Copy, PartialEq, Eq, Structural)]
pub enum CustomTempKind {
    Average,
    Min,
    Max,
}

impl CustomTempKind {
    /// Every kind, in the order of declaration.
    pub fn values() -> (r: Vec<CustomTempKind>)
        ensures
            r@ == seq![CustomTempKind::Average, CustomTempKind::Min, CustomTempKind::Max],
    {
        let mut v: Vec<CustomTempKind> = Vec::new();
        v.push(CustomTempKind::Average);
        v.push(CustomTempKind::Min);
        v.push(CustomTempKind::Max);
        v
    }

    /// The kind that a new custom temperature starts with.
    pub fn default() -> (r: Self)
        ensures
            r == CustomTempKind::Average,
    {
        CustomTempKind::Average
    }

    /// The name shown for this kind.
    pub fn to_string(&self) -> (r: String)
        ensures
            r@ == kind_label(*self),
    {
        match self {
            CustomTempKind::Average => String::from_str("Average"),
            CustomTempKind::Max => String::from_str("Max"),
            CustomTempKind::Min => String::from_str("Min"),
        }
    }
}

/// The name shown for a kind.
pub open spec fn kind_label(k: CustomTempKind) -> Seq<char> {
    match k {
        CustomTempKind::Average => "Average"@,
        CustomTempKind::Max => "Max"@,
        CustomTempKind::Min => "Min"@,
    }
}

/// A temperature computed from the temperatures named in `inputs`.
pub struct CustomTemp {
    pub name: String,
    pub kind: CustomTempKind,
    pub inputs: Vec<String>,
}

/// The sum of a sequence of values computed in `i32` from the left, wrapping
/// around on overflow.
pub open spec fn wrapping_sum(s: Seq<Value>) -> i32
    decreases s.len(),
{
    if s.len() == 0 {
        0
    } else {
        vstd::wrapping::i32_specs::wrapping_add(wrapping_sum(s.drop_last()), s.last())
    }
}

/// The least value of a non-empty sequence.
pub open spec fn seq_min(s: Seq<Value>) -> int
    decreases s.len(),
{
    if s.len() <= 1 {
        s[0] as int
    } else {
        let m = seq_min(s.drop_last());
        if s.last() < m {
            s.last() as int
        } else {
            m
        }
    }
}

/// The greatest value of a non-empty sequence.
pub open spec fn seq_max(s: Seq<Value>) -> int
    decreases s.len(),
{
    if s.len() <= 1 {
        s[0] as int
    } else {
        let m = seq_max(s.drop_last());
        if s.last() > m {
            s.last() as int
        } else {
            m
        }
    }
}

/// The least value of a non-empty sequence is at most each of its values and
/// is one of them.
pub proof fn lemma_seq_min_is_least(s: Seq<Value>)
    requires
        s.len() > 0,
    ensures
        forall|i: int| 0 <= i < s.len() ==> seq_min(s) <= s[i],
        exists|i: int| 0 <= i < s.len() && seq_min(s) == s[i],
    decreases s.len(),
{
    if s.len() > 1 {
        let r = s.drop_last();
        lemma_seq_min_is_least(r);
        let k = choose|i: int| 0 <= i < r.len() && seq_min(r) == r[i];
        assert(r[k] == s[k]);
        assert forall|i: int| 0 <= i < s.len() implies seq_min(s) <= s[i] by {
            if i < s.len() - 1 {
                assert(r[i] == s[i]);
            }
        }
        if s.last() < seq_min(r) {
            assert(seq_min(s) == s[s.len() - 1]);
        } else {
            assert(seq_min(s) == s[k]);
        }
    } else {
        assert(seq_min(s) == s[0]);
    }
}

/// The greatest value of a non-empty sequence is at least each of its values
/// and is one of them.
pub proof fn lemma_seq_max_is_greatest(s: Seq<Value>)
    requires
        s.len() > 0,
    ensures
        forall|i: int| 0 <= i < s.len() ==> s[i] <= seq_max(s),
        exists|i: int| 0 <= i < s.len() && seq_max(s) == s[i],
    decreases s.len(),
{
    if s.len() > 1 {
        let r = s.drop_last();
        lemma_seq_max_is_greatest(r);
        let k = choose|i: int| 0 <= i < r.len() && seq_max(r) == r[i];
        assert(r[k] == s[k]);
        assert forall|i: int| 0 <= i < s.len() implies s[i] <= seq_max(s) by {
            if i < s.len() - 1 {
                assert(r[i] == s[i]);
            }
        }
        if s.last() > seq_max(r) {
            assert(seq_max(s) == s[s.len() - 1]);
        } else {
            assert(seq_max(s) == s[k]);
        }
    } else {
        assert(seq_max(s) == s[0]);
    }
}

/// A custom temperature of kind Min gives the least of its input values: at
/// most each of them, and one of them; of kind Max, the greatest.
pub proof fn lemma_custom_min_max(values: Seq<Value>)
    requires
        values.len() > 0,
    ensures
        forall|i: int| 0 <= i < values.len() ==> custom_value(CustomTempKind::Min, values) <= values[i],
        exists|i: int| 0 <= i < values.len() && custom_value(CustomTempKind::Min, values) == values[i],
        forall|i: int| 0 <= i < values.len() ==> values[i] <= custom_value(CustomTempKind::Max, values),
        exists|i: int| 0 <= i < values.len() && custom_value(CustomTempKind::Max, values) == values[i],
{
    lemma_seq_min_is_least(values);
    lemma_seq_max_is_greatest(values);
}

/// The exact sum of a sequence of values.
pub open spec fn exact_sum(s: Seq<Value>) -> int
    decreases s.len(),
{
    if s.len() == 0 {
        0
    } else {
        exact_sum(s.drop_last()) + s.last()
    }
}

/// Every sum of the first values of `s` fits an `i32`: the sum from the left
/// never wraps around.
pub open spec fn sums_fit(s: Seq<Value>) -> bool {
    forall|k: int| 0 <= k <= s.len() ==> i32::MIN <= #[trigger] exact_sum(s.take(k)) <= i32::MAX
}

proof fn lemma_wrapping_sum_exact(s: Seq<Value>)
    requires
        sums_fit(s),
    ensures
        wrapping_sum(s) == exact_sum(s),
    decreases s.len(),
{
    if s.len() > 0 {
        let r = s.drop_last();
        assert forall|k: int| 0 <= k <= r.len() implies i32::MIN <= #[trigger] exact_sum(r.take(k)) <= i32::MAX by {
            assert(r.take(k) =~= s.take(k));
        }
        lemma_wrapping_sum_exact(r);
        assert(s.take(s.len() as int) =~= s);
        assert(i32::MIN <= exact_sum(s.take(s.len() as int)) <= i32::MAX);
    }
}

proof fn lemma_exact_sum_bounds(s: Seq<Value>, lo: int, hi: int)
    requires
        forall|i: int| 0 <= i < s.len() ==> lo <= #[trigger] s[i] <= hi,
    ensures
        s.len() * lo <= exact_sum(s) <= s.len() * hi,
    decreases s.len(),
{
    if s.len() > 0 {
        let r = s.drop_last();
        assert forall|i: int| 0 <= i < r.len() implies lo <= #[trigger] r[i] <= hi by {
            assert(r[i] == s[i]);
        }
        lemma_exact_sum_bounds(r, lo, hi);
        let n = s.len() as int;
        assert(n * lo == (n - 1) * lo + lo && n * hi == (n - 1) * hi + hi) by (nonlinear_arith);
        assert(lo <= s[n - 1] <= hi);
    }
}

/// A quotient rounded toward zero of a sum of `n` values by `n` lies
/// between the least and the greatest of them.
proof fn lemma_trunc_div_between(sum: int, n: int, lo: int, hi: int)
    requires
        n > 0,
        n * lo <= sum <= n * hi,
    ensures
        lo <= trunc_div(sum, n) <= hi,
{
    vstd::arithmetic::div_mod::lemma_div_multiples_vanish(lo, n);
    vstd::arithmetic::div_mod::lemma_div_multiples_vanish(hi, n);
    vstd::arithmetic::div_mod::lemma_div_multiples_vanish(-lo, n);
    vstd::arithmetic::div_mod::lemma_div_multiples_vanish(-hi, n);
    if sum >= 0 {
        vstd::arithmetic::div_mod::lemma_div_is_ordered(sum, n * hi, n);
        assert(n * hi == hi * n) by (nonlinear_arith);
        if lo > 0 {
            vstd::arithmetic::div_mod::lemma_div_is_ordered(n * lo, sum, n);
            assert(n * lo == lo * n) by (nonlinear_arith);
        } else {
            vstd::arithmetic::div_mod::lemma_div_is_ordered(0, sum, n);
        }
    } else {
        assert(n * (-lo) == -(n * lo) && n * (-hi) == -(n * hi)) by (nonlinear_arith);
        vstd::arithmetic::div_mod::lemma_div_is_ordered(-sum, n * (-lo), n);
        if hi < 0 {
            vstd::arithmetic::div_mod::lemma_div_is_ordered(n * (-hi), -sum, n);
        } else {
            vstd::arithmetic::div_mod::lemma_div_is_ordered(0, -sum, n);
        }
    }
}

/// Where the sum of the input values does not wrap around, a custom
/// temperature of kind Average lies between the least and the greatest of
/// its input values.
pub proof fn lemma_custom_average_within(values: Seq<Value>)
    requires
        values.len() > 0,
        sums_fit(values),
    ensures
        seq_min(values) <= custom_value(CustomTempKind::Average, values) <= seq_max(values),
{
    lemma_seq_min_is_least(values);
    lemma_seq_max_is_greatest(values);
    lemma_wrapping_sum_exact(values);
    lemma_exact_sum_bounds(values, seq_min(values), seq_max(values));
    lemma_trunc_div_between(exact_sum(values), values.len() as int, seq_min(values), seq_max(values));
}

/// What a custom temperature of kind `kind` gives for non-empty `values`.
pub open spec fn custom_value(kind: CustomTempKind, values: Seq<Value>) -> int {
    match kind {
        CustomTempKind::Min => seq_min(values),
        CustomTempKind::Max => seq_max(values),
        CustomTempKind::Average => trunc_div(wrapping_sum(values) as int, values.len() as int),
    }
}

impl CustomTemp {
    pub fn new(name: String, kind: CustomTempKind, inputs: Vec<String>) -> (r: Self)
        ensures
            r.name == name,
            r.kind == kind,
            r.inputs == inputs,
    {
        Self { name, kind, inputs }
    }

    /// An empty average.
    pub fn default() -> (r: Self)
        ensures
            r.name@ == Seq::<char>::empty(),
            r.kind == CustomTempKind::Average,
            r.inputs@.len() == 0,
    {
        Self { name: String::new(), kind: CustomTempKind::Average, inputs: Vec::new() }
    }

    /// The minimum, maximum or average (rounded toward zero) of `values`; the
    /// sum for the average wraps around on overflow. No value at all is an error.
    pub fn get_value(&self, values: &[Value]) -> (r: Result<Value, UpdateError>)
        requires
            self.kind == CustomTempKind::Average ==> values@.len() <= i32::MAX,
        ensures
            values@.len() == 0 ==> r matches Err(UpdateError::NoInputData),
            values@.len() > 0 ==> (r matches Ok(v) && v == custom_value(self.kind, values@)),
    {
        if values.len() == 0 {
            return Err(UpdateError::NoInputData);
        }
        match self.kind {
            CustomTempKind::Min => {
                let mut m = values[0];
                let mut i: usize = 1;
                while i < values.len()
                    invariant
                        1 <= i <= values@.len(),
                        m == seq_min(values@.take(i as int)),
                    decreases values@.len() - i,
                {
                    proof {
                        assert(values@.take(i + 1).drop_last() =~= values@.take(i as int));
                    }
                    if values[i] < m {
                        m = values[i];
                    }
                    i = i + 1;
                }
                proof {
                    assert(values@.take(values@.len() as int) =~= values@);
                }
                Ok(m)
            },
            CustomTempKind::Max => {
                let mut m = values[0];
                let mut i: usize = 1;
                while i < values.len()
                    invariant
                        1 <= i <= values@.len(),
                        m == seq_max(values@.take(i as int)),
                    decreases values@.len() - i,
                {
                    proof {
                        assert(values@.take(i + 1).drop_last() =~= values@.take(i as int));
                    }
                    if values[i] > m {
                        m = values[i];
                    }
                    i = i + 1;
                }
                proof {
                    assert(values@.take(values@.len() as int) =~= values@);
                }
                Ok(m)
            },
            CustomTempKind::Average => {
                let mut sum: i32 = 0;
                let mut i: usize = 0;
                proof {
                    assert(values@.take(0) =~= Seq::<Value>::empty());
                }
                while i < values.len()
                    invariant
                        i <= values@.len(),
                        sum == wrapping_sum(values@.take(i as int)),
                    decreases values@.len() - i,
                {
                    proof {
                        assert(values@.take(i + 1).drop_last() =~= values@.take(i as int));
                    }
                    sum = sum.wrapping_add(values[i]);
                    i = i + 1;
                }
                proof {
                    assert(values@.take(values@.len() as int) =~= values@);
                }
                let n: i64 = values.len() as i64;
                let s: i64 = sum as i64;
                let q: i64 = if s >= 0 {
                    s / n
                } else {
                    -((-s) / n)
                };
                Ok(q as i32)
            },
        }
    }
}

impl IsValid for CustomTemp {
    /// A custom temperature can run when it has an input.
    fn is_valid(&self) -> (r: bool)
        ensures
            r == (self.inputs@.len() > 0),
    {
        self.inputs.len() > 0
    }
}

impl ToNode for CustomTemp {
    fn to_node(self, app_graph: &mut AppGraph, hardware: &Hardware) -> (r: Node)
        ensures
            node_made(*old(app_graph), *final(app_graph), NodeType::CustomTemp(self), r),
    {
        Node::new(NodeType::CustomTemp(self), app_graph)
    }
}

impl CustomTemp {
    /// A copy of this custom temperature: the same name, kind and inputs.
    pub fn copy(&self) -> (r: Self)
        ensures
            r.name == self.name,
            r.kind == self.kind,
            r.inputs@ == self.inputs@,
    {
        CustomTemp { name: self.name.clone(), kind: self.kind, inputs: clone_strings(&self.inputs) }
    }
}

} // verus!
