//! Named weight tensors and products with them.

use crate::bf16::of_bf16;
use crate::chars::{is_digit, law_decimal_injective, lemma_decimal};
use crate::constants::rms_norm_eps;
use crate::float::{
    Arith, F32, deterministic, fadd, fdiv, fdot, ffrom_int, fmul, fsqrt, one, zero,
};
use crate::grid::{lemma_cell, lemma_row_fits};
use crate::int4::{dequant_row, int4_row, table_fits};
use crate::math::{SumOrder, cpu_rms_norm, law_rms_norm, rms_norm, sum_of, zero_seq, zeros};
use crate::text::{decimal, push_decimal, same_text};
use vstd::prelude::*;
use vstd::slice::slice_to_vec;
use vstd::string::*;

verus! {

/// The numbers of a tensor.
pub enum TensorData<'a> {
    U32(&'a [u32]),
    U16(&'a [u16]),
    F32(&'a [F32]),
}

/// A tensor with its name and shape.
pub struct Tensor<'a> {
    pub name: String,
    pub shape: Vec<usize>,
    pub data: TensorData<'a>,
}

/// The tensors of a model.
pub struct Weights<'a> {
    pub tensors: Vec<Tensor<'a>>,
}

/// Place of the first tensor from `i` on that has a name, and the number of tensors where none has.
pub open spec fn place_of(t: Seq<Tensor>, name: Seq<char>, i: int) -> int
    decreases t.len() - i,
{
    if i < 0 || i >= t.len() {
        t.len() as int
    } else if t[i].name@ == name {
        i
    } else {
        place_of(t, name, i + 1)
    }
}

/// The words of the tensor with a name.
pub open spec fn u32s_of(ws: Weights, name: Seq<char>) -> Option<Seq<u32>> {
    let t = ws.tensors@;
    let i = place_of(t, name, 0);
    if i < t.len() {
        match t[i].data {
            TensorData::U32(s) => Some(s@),
            _ => None,
        }
    } else {
        None
    }
}

/// The half words of the tensor with a name.
pub open spec fn u16s_of(ws: Weights, name: Seq<char>) -> Option<Seq<u16>> {
    let t = ws.tensors@;
    let i = place_of(t, name, 0);
    if i < t.len() {
        match t[i].data {
            TensorData::U16(s) => Some(s@),
            _ => None,
        }
    } else {
        None
    }
}

/// The numbers of the tensor with a name.
pub open spec fn f32s_of(ws: Weights, name: Seq<char>) -> Option<Seq<F32>> {
    let t = ws.tensors@;
    let i = place_of(t, name, 0);
    if i < t.len() {
        match t[i].data {
            TensorData::F32(s) => Some(s@),
            _ => None,
        }
    } else {
        None
    }
}

/// The shape of the tensor with a name.
pub open spec fn shape_of(ws: Weights, name: Seq<char>) -> Option<Seq<usize>> {
    let t = ws.tensors@;
    let i = place_of(t, name, 0);
    if i < t.len() {
        Some(t[i].shape@)
    } else {
        None
    }
}

impl<'a> Weights<'a> {
    fn place(&self, name: &str) -> (r: usize)
        ensures
            r == place_of(self.tensors@, name@, 0),
            r <= self.tensors@.len(),
    {
        let mut i: usize = 0;
        while i < self.tensors.len()
            invariant
                i <= self.tensors@.len(),
                place_of(self.tensors@, name@, 0) == place_of(self.tensors@, name@, i as int),
            decreases self.tensors@.len() - i,
        {
            if same_text(self.tensors[i].name.as_str(), name) {
                return i;
            }
            i = i + 1;
        }
        i
    }

    /// The words of the tensor with a name.
    pub fn get_tensor_u32(&self, name: &str) -> (r: Option<&'a [u32]>)
        ensures
            match r {
                Some(s) => u32s_of(*self, name@) == Some(s@),
                None => u32s_of(*self, name@) is None,
            },
    {
        let i: usize = self.place(name);
        if i < self.tensors.len() {
            match &self.tensors[i].data {
                TensorData::U32(s) => Some(*s),
                _ => None,
            }
        } else {
            None
        }
    }

    /// The half words of the tensor with a name.
    pub fn get_tensor_u16(&self, name: &str) -> (r: Option<&'a [u16]>)
        ensures
            match r {
                Some(s) => u16s_of(*self, name@) == Some(s@),
                None => u16s_of(*self, name@) is None,
            },
    {
        let i: usize = self.place(name);
        if i < self.tensors.len() {
            match &self.tensors[i].data {
                TensorData::U16(s) => Some(*s),
                _ => None,
            }
        } else {
            None
        }
    }

    /// The numbers of the tensor with a name.
    pub fn get_tensor_f32(&self, name: &str) -> (r: Option<&'a [F32]>)
        ensures
            match r {
                Some(s) => f32s_of(*self, name@) == Some(s@),
                None => f32s_of(*self, name@) is None,
            },
    {
        let i: usize = self.place(name);
        if i < self.tensors.len() {
            match &self.tensors[i].data {
                TensorData::F32(s) => Some(*s),
                _ => None,
            }
        } else {
            None
        }
    }

    /// How many axes a tensor has; none where it is not there.
    pub fn shape_len(&self, name: &str) -> (r: usize)
        ensures
            r == match shape_of(*self, name@) {
                Some(s) => s.len() as int,
                None => 0,
            },
    {
        let i: usize = self.place(name);
        if i < self.tensors.len() {
            self.tensors[i].shape.len()
        } else {
            0
        }
    }

    /// Entry `axis` of the shape of the tensor with a name.
    pub fn shape_entry(&self, name: &str, axis: usize) -> (r: usize)
        requires
            shape_of(*self, name@) matches Some(s) && axis < s.len(),
        ensures
            shape_of(*self, name@) matches Some(s) && r == s[axis as int],
    {
        let i: usize = self.place(name);
        self.tensors[i].shape[axis]
    }
}

/// The name of a tensor of a layer.
pub open spec fn in_layer(layer: int, rest: Seq<char>) -> Seq<char> {
    "model.layers."@ + decimal(layer) + rest
}

/// The name of a tensor of a layer; `rest` begins with a dot.
pub fn layer_name(layer: usize, rest: &str) -> (r: String)
    ensures
        r@ == in_layer(layer as int, rest@),
{
    let mut s: String = "model.layers.".to_owned();
    push_decimal(&mut s, layer as u64);
    s.append(rest);
    s
}

/// A packed matrix: words, scales and biases.
pub struct QMatrix<'a> {
    pub w: &'a [u32],
    pub s: &'a [u16],
    pub b: &'a [u16],
}

/// The parts of a packed matrix.
pub struct QParts {
    pub w: Seq<u32>,
    pub s: Seq<u16>,
    pub b: Seq<u16>,
}

impl<'a> View for QMatrix<'a> {
    type V = QParts;

    open spec fn view(&self) -> QParts {
        QParts { w: self.w@, s: self.s@, b: self.b@ }
    }
}

/// The packed matrix with a name, where all its parts are there.
pub open spec fn matrix_of(ws: Weights, name: Seq<char>) -> Option<QParts> {
    match (
        u32s_of(ws, name + ".weight"@),
        u16s_of(ws, name + ".scales"@),
        u16s_of(ws, name + ".biases"@),
    ) {
        (Some(w), Some(s), Some(b)) => Some(QParts { w, s, b }),
        _ => None,
    }
}

/// The packed matrix with a name, where all its parts are there.
pub fn get_matrix<'a>(ws: &Weights<'a>, name: &str) -> (r: Option<QMatrix<'a>>)
    ensures
        match r {
            Some(m) => matrix_of(*ws, name@) == Some(m@),
            None => matrix_of(*ws, name@) is None,
        },
{
    let mut wn: String = name.to_owned();
    wn.append(".weight");
    let mut sn: String = name.to_owned();
    sn.append(".scales");
    let mut bn: String = name.to_owned();
    bn.append(".biases");
    match (
        ws.get_tensor_u32(wn.as_str()),
        ws.get_tensor_u16(sn.as_str()),
        ws.get_tensor_u16(bn.as_str()),
    ) {
        (Some(w), Some(s), Some(b)) => Some(QMatrix { w, s, b }),
        _ => None,
    }
}

/// The parts hold `rows` rows of `cols` numbers.
pub open spec fn parts_fit(m: QParts, rows: int, cols: int) -> bool {
    table_fits(m.w.len() as int, m.s.len() as int, m.b.len() as int, rows, cols, 64)
}

/// The product of a packed matrix of `rows` rows with a vector.
pub open spec fn product<A: Arith>(m: QParts, x: Seq<F32>, rows: int) -> Seq<F32> {
    Seq::new(
        rows as nat,
        |r: int| fdot::<A>(int4_row::<A>(m.w, m.s, m.b, x.len() as int, 64, r), x),
    )
}

proof fn lemma_rows_before(m: QParts, row: int, rows: int, cols: int)
    requires
        parts_fit(m, rows, cols),
        0 <= row < rows,
        0 <= cols,
    ensures
        parts_fit(m, row + 1, cols),
{
    let groups = cols / 64;
    let wpr = cols / 8;
    assert((row + 1) * groups <= rows * groups && row * wpr <= (rows - 1) * wpr)
        by (nonlinear_arith)
        requires
            0 <= row < rows,
            groups >= 0,
            wpr >= 0,
    ;
}

/// The product of a packed matrix of `out_dim` rows with a vector.
pub fn cpu_dequant_matvec_4bit<'a, A: Arith>(m: &QMatrix<'a>, x: &[F32], out_dim: usize) -> (r: Vec<
    F32,
>)
    requires
        parts_fit(m@, out_dim as int, x@.len() as int),
    ensures
        r@.len() == out_dim,
        deterministic::<A>() ==> r@ == product::<A>(m@, x@, out_dim as int),
{
    let mut out: Vec<F32> = Vec::new();
    for row in 0..out_dim
        invariant
            parts_fit(m@, out_dim as int, x@.len() as int),
            out@.len() == row,
            deterministic::<A>() ==> forall|k: int|
                0 <= k < row ==> #[trigger] out@[k] == fdot::<A>(
                    int4_row::<A>(m@.w, m@.s, m@.b, x@.len() as int, 64, k),
                    x@,
                ),
    {
        proof {
            lemma_rows_before(m@, row as int, out_dim as int, x@.len() as int);
        }
        let weights: Vec<F32> = dequant_row::<A>(m.w, m.s, m.b, x.len(), 64, row);
        out.push(A::dot(weights.as_slice(), x));
    }
    out
}

/// The named matrix, where it is there, holds `rows` rows of `cols` numbers.
pub open spec fn named_fits(ws: Weights, name: Seq<char>, rows: int, cols: int) -> bool {
    matrix_of(ws, name) matches Some(m) ==> parts_fit(m, rows, cols)
}

/// The product of the named matrix with a vector, and zeros where the matrix is not there.
pub open spec fn projected<A: Arith>(
    ws: Weights,
    name: Seq<char>,
    x: Seq<F32>,
    rows: int,
) -> Seq<F32> {
    match matrix_of(ws, name) {
        Some(m) => product::<A>(m, x, rows),
        None => zero_seq(rows),
    }
}

/// The product of the named matrix with a vector, and zeros where the matrix is not there.
pub fn project<A: Arith>(ws: &Weights, name: &str, x: &[F32], rows: usize) -> (r: Vec<F32>)
    requires
        named_fits(*ws, name@, rows as int, x@.len() as int),
    ensures
        r@.len() == rows,
        deterministic::<A>() ==> r@ == projected::<A>(*ws, name@, x@, rows as int),
{
    match get_matrix(ws, name) {
        Some(m) => cpu_dequant_matvec_4bit::<A>(&m, x, rows),
        None => zeros(rows),
    }
}

/// The named norm weights, where they are there, cover `n` numbers.
pub open spec fn norm_fits(ws: Weights, name: Seq<char>, n: int) -> bool {
    u16s_of(ws, name) matches Some(w) ==> n <= w.len()
}

/// The vector over its root mean square, times the named weights; the vector itself where these
/// are not there.
pub open spec fn normed_by<A: Arith>(
    ws: Weights,
    name: Seq<char>,
    x: Seq<F32>,
    order: SumOrder,
) -> Seq<F32> {
    match u16s_of(ws, name) {
        Some(w) => rms_norm::<A>(x, w, rms_norm_eps(), order),
        None => x,
    }
}

/// The vector over its root mean square, times the named weights; the vector itself where these
/// are not there.
pub fn norm_by<A: Arith>(ws: &Weights, name: &str, x: &[F32], order: SumOrder) -> (r: Vec<F32>)
    requires
        x@.len() <= i64::MAX,
        norm_fits(*ws, name@, x@.len() as int),
    ensures
        r@.len() == x@.len(),
        deterministic::<A>() ==> r@ == normed_by::<A>(*ws, name@, x@, order),
{
    match ws.get_tensor_u16(name) {
        Some(w) => cpu_rms_norm::<A>(x, w, rms_norm_eps(), order),
        None => slice_to_vec(x),
    }
}

/// The norm before the first block of a layer.
pub fn input_norm<A: Arith>(
    ws: &Weights,
    layer_idx: usize,
    hidden: &[F32],
    order: SumOrder,
) -> (r: Vec<F32>)
    requires
        hidden@.len() <= i64::MAX,
        norm_fits(
            *ws,
            in_layer(layer_idx as int, ".input_layernorm.weight"@),
            hidden@.len() as int,
        ),
    ensures
        r@.len() == hidden@.len(),
        deterministic::<A>() ==> r@ == normed_by::<A>(
            *ws,
            in_layer(layer_idx as int, ".input_layernorm.weight"@),
            hidden@,
            order,
        ),
{
    let name: String = layer_name(layer_idx, ".input_layernorm.weight");
    norm_by::<A>(ws, name.as_str(), hidden, order)
}

/// The norm between the two blocks of a layer.
pub fn post_norm<A: Arith>(
    ws: &Weights,
    layer_idx: usize,
    hidden: &[F32],
    order: SumOrder,
) -> (r: Vec<F32>)
    requires
        hidden@.len() <= i64::MAX,
        norm_fits(
            *ws,
            in_layer(layer_idx as int, ".post_attention_layernorm.weight"@),
            hidden@.len() as int,
        ),
    ensures
        r@.len() == hidden@.len(),
        deterministic::<A>() ==> r@ == normed_by::<A>(
            *ws,
            in_layer(layer_idx as int, ".post_attention_layernorm.weight"@),
            hidden@,
            order,
        ),
{
    let name: String = layer_name(layer_idx, ".post_attention_layernorm.weight");
    norm_by::<A>(ws, name.as_str(), hidden, order)
}

/// The norm behind the last layer.
pub fn apply_final_norm<A: Arith>(ws: &Weights, hidden: &[F32]) -> (r: Vec<F32>)
    requires
        hidden@.len() <= i64::MAX,
        norm_fits(*ws, "model.norm.weight"@, hidden@.len() as int),
    ensures
        r@.len() == hidden@.len(),
        deterministic::<A>() ==> r@ == normed_by::<A>(
            *ws,
            "model.norm.weight"@,
            hidden@,
            SumOrder::LeftToRight,
        ),
{
    norm_by::<A>(ws, "model.norm.weight", hidden, SumOrder::LeftToRight)
}

/// Tensors of different layers, and different tensors of a layer, have different names.
pub proof fn law_names_differ(a: int, b: int, rest_a: Seq<char>, rest_b: Seq<char>)
    requires
        0 <= a,
        0 <= b,
        rest_a.len() > 0 && rest_a[0] == '.',
        rest_b.len() > 0 && rest_b[0] == '.',
        in_layer(a, rest_a) == in_layer(b, rest_b),
    ensures
        a == b,
        rest_a == rest_b,
{
    lemma_decimal(a);
    lemma_decimal(b);
    let (x, y) = (in_layer(a, rest_a), in_layer(b, rest_b));
    let (da, db) = (decimal(a), decimal(b));
    let n = "model.layers."@.len() as int;
    assert forall|i: int| 0 <= i < da.len() implies x[n + i] == #[trigger] da[i] by {}
    assert forall|i: int| 0 <= i < db.len() implies y[n + i] == #[trigger] db[i] by {}
    assert(x[n + da.len()] == '.');
    assert(y[n + db.len()] == '.');
    if da.len() < db.len() {
        assert(is_digit(db[da.len() as int]));
    }
    if db.len() < da.len() {
        assert(is_digit(da[db.len() as int]));
    }
    assert(da =~= x.subrange(n, n + da.len()));
    assert(db =~= y.subrange(n, n + db.len()));
    law_decimal_injective(a, b);
    assert(rest_a =~= x.skip(n + da.len()));
    assert(rest_b =~= y.skip(n + db.len()));
}

/// A packed matrix times a vector: row `r` holds eight numbers in each of its `cols / 8` words, the
/// first in the lowest four bits; a number is its code times the scale of its group of 64, plus
/// the group's bias; behind the last whole group there are zeros. Each row is multiplied with the
/// vector.
pub proof fn law_matrix_product<A: Arith>(m: QParts, x: Seq<F32>, rows: int, r: int)
    requires
        parts_fit(m, rows, x.len() as int),
        0 <= r < rows,
    ensures
        product::<A>(m, x, rows).len() == rows,
        product::<A>(m, x, rows)[r] == fdot::<A>(
            Seq::new(
                x.len(),
                |c: int|
                    if c < x.len() as int / 64 * 64 {
                        let word = m.w[r * (x.len() as int / 8) + c / 8];
                        let group = r * (x.len() as int / 64) + c / 64;
                        fadd::<A>(
                            fmul::<A>(
                                ffrom_int::<A>(
                                    ((word >> ((4 * (c % 8)) as u32)) & 0xF) as i64,
                                ),
                                of_bf16(m.s[group]),
                            ),
                            of_bf16(m.b[group]),
                        )
                    } else {
                        zero()
                    },
            ),
            x,
        ),
{
    let cols = x.len() as int;
    let (wpr, groups) = (cols / 8, cols / 64);
    let row = int4_row::<A>(m.w, m.s, m.b, cols, 64, r);
    let want = Seq::new(
        x.len(),
        |c: int|
            if c < cols / 64 * 64 {
                let word = m.w[r * wpr + c / 8];
                let group = r * groups + c / 64;
                fadd::<A>(
                    fmul::<A>(
                        ffrom_int::<A>(((word >> ((4 * (c % 8)) as u32)) & 0xF) as i64),
                        of_bf16(m.s[group]),
                    ),
                    of_bf16(m.b[group]),
                )
            } else {
                zero()
            },
    );
    if groups > 0 {
        lemma_row_fits(m.w.len() as int, r, rows, wpr, groups * 8);
        lemma_cell(r, rows, groups);
    }
    assert forall|c: int| 0 <= c < cols implies row[c] == want[c] by {
        if c < cols / 64 * 64 {
            assert(c / 64 * 8 + c % 64 / 8 == c / 8 && c % 64 % 8 == c % 8);
            assert(c / 64 < groups);
            assert(m.w.skip(r * wpr)[c / 8] == m.w[r * wpr + c / 8]);
            assert(m.s.skip(r * groups)[c / 64] == m.s[r * groups + c / 64]);
            assert(m.b.skip(r * groups)[c / 64] == m.b[r * groups + c / 64]);
        } else {
            assert(c / 64 >= groups);
        }
    }
    assert(row =~= want);
    assert(want =~= Seq::new(
        x.len(),
        |c: int|
            if c < x.len() as int / 64 * 64 {
                let word = m.w[r * (x.len() as int / 8) + c / 8];
                let group = r * (x.len() as int / 64) + c / 64;
                fadd::<A>(
                    fmul::<A>(
                        ffrom_int::<A>(((word >> ((4 * (c % 8)) as u32)) & 0xF) as i64),
                        of_bf16(m.s[group]),
                    ),
                    of_bf16(m.b[group]),
                )
            } else {
                zero()
            },
    ));
}

/// Matrices that agree where they hold numbers have the same product.
pub proof fn lemma_same_product<A: Arith>(m: QParts, n: QParts, x: Seq<F32>, rows: int)
    requires
        0 <= rows,
        parts_fit(m, rows, x.len() as int),
        parts_fit(n, rows, x.len() as int),
        forall|i: int|
            0 <= i < rows * (x.len() as int / 8) && i < m.w.len() && i < n.w.len()
                ==> #[trigger] m.w[i] == n.w[i],
        forall|i: int| 0 <= i < rows * (x.len() as int / 64) ==> #[trigger] m.s[i] == n.s[i],
        forall|i: int| 0 <= i < rows * (x.len() as int / 64) ==> #[trigger] m.b[i] == n.b[i],
    ensures
        product::<A>(m, x, rows) == product::<A>(n, x, rows),
{
    let cols = x.len() as int;
    let (wpr, groups) = (cols / 8, cols / 64);
    assert forall|r: int| 0 <= r < rows implies product::<A>(m, x, rows)[r] == product::<A>(
        n,
        x,
        rows,
    )[r] by {
        let a = int4_row::<A>(m.w, m.s, m.b, cols, 64, r);
        let b = int4_row::<A>(n.w, n.s, n.b, cols, 64, r);
        lemma_cell(r, rows, wpr);
        lemma_cell(r, rows, groups);
        if groups > 0 {
            lemma_row_fits(m.w.len() as int, r, rows, wpr, groups * 8);
            lemma_row_fits(n.w.len() as int, r, rows, wpr, groups * 8);
        }
        assert forall|c: int| 0 <= c < cols implies a[c] == b[c] by {
            if c / 64 < groups {
                assert(c / 64 * 8 + c % 64 / 8 == c / 8);
                assert(m.w[r * wpr + c / 8] == n.w[r * wpr + c / 8]);
                assert(m.s[r * groups + c / 64] == n.s[r * groups + c / 64]);
                assert(m.b[r * groups + c / 64] == n.b[r * groups + c / 64]);
            }
        }
        assert(a =~= b);
    }
    assert(product::<A>(m, x, rows) =~= product::<A>(n, x, rows));
}

proof fn lemma_place(t: Seq<Tensor>, name: Seq<char>, i: int)
    requires
        0 <= i <= t.len(),
    ensures
        i <= place_of(t, name, i) <= t.len(),
        forall|j: int| i <= j < place_of(t, name, i) ==> (#[trigger] t[j]).name@ != name,
        place_of(t, name, i) < t.len() ==> t[place_of(t, name, i)].name@ == name,
    decreases t.len() - i,
{
    if i < t.len() {
        lemma_place(t, name, i + 1);
    }
}

/// A tensor is found by its name, wherever it stands, if no tensor before it has that name: its
/// shape, and its numbers as what they are and as nothing else.
pub proof fn law_tensor_found(ws: Weights, i: int)
    requires
        0 <= i < ws.tensors@.len(),
        forall|j: int|
            0 <= j < i ==> (#[trigger] ws.tensors@[j]).name@ != ws.tensors@[i].name@,
    ensures
        ({
            let t = ws.tensors@[i];
            &&& shape_of(ws, t.name@) == Some(t.shape@)
            &&& u32s_of(ws, t.name@) == match t.data {
                TensorData::U32(s) => Some(s@),
                _ => None,
            }
            &&& u16s_of(ws, t.name@) == match t.data {
                TensorData::U16(s) => Some(s@),
                _ => None,
            }
            &&& f32s_of(ws, t.name@) == match t.data {
                TensorData::F32(s) => Some(s@),
                _ => None,
            }
        }),
{
    let name = ws.tensors@[i].name@;
    lemma_place(ws.tensors@, name, 0);
    let k = place_of(ws.tensors@, name, 0);
    if k < i {
        assert(ws.tensors@[k].name@ != name);
    }
}

/// A name that no tensor has finds nothing.
pub proof fn law_tensor_missing(ws: Weights, name: Seq<char>)
    requires
        forall|j: int| 0 <= j < ws.tensors@.len() ==> (#[trigger] ws.tensors@[j]).name@ != name,
    ensures
        shape_of(ws, name) is None,
        u32s_of(ws, name) is None,
        u16s_of(ws, name) is None,
        f32s_of(ws, name) is None,
{
    lemma_place(ws.tensors@, name, 0);
}

/// A packed matrix is there where its words, its scales and its biases are there, under its name
/// with three endings; products without it are zero.
pub proof fn law_named_matrix<A: Arith>(
    ws: Weights,
    name: Seq<char>,
    x: Seq<F32>,
    rows: int,
    i: int,
)
    requires
        0 <= i < rows,
    ensures
        ({
            let w = u32s_of(ws, name + ".weight"@);
            let s = u16s_of(ws, name + ".scales"@);
            let b = u16s_of(ws, name + ".biases"@);
            &&& matrix_of(ws, name) is Some <==> w is Some && s is Some && b is Some
            &&& matrix_of(ws, name) matches Some(m) ==> {
                &&& m.w == w->0
                &&& m.s == s->0
                &&& m.b == b->0
                &&& projected::<A>(ws, name, x, rows) == product::<A>(m, x, rows)
            }
            &&& matrix_of(ws, name) is None ==> projected::<A>(ws, name, x, rows)[i] == zero()
            &&& projected::<A>(ws, name, x, rows).len() == rows
        }),
{
}

/// A named norm: each number over the root of the mean square, a millionth added, times the weight
/// at its place; without weights the vector stays as it is.
pub proof fn law_named_norm<A: Arith>(
    ws: Weights,
    layer: int,
    rest: Seq<char>,
    x: Seq<F32>,
    order: SumOrder,
    i: int,
)
    requires
        0 <= i < x.len(),
    ensures
        ({
            let name = "model.layers."@ + decimal(layer) + rest;
            let mean = fdiv::<A>(
                sum_of::<A>(Seq::new(x.len(), |j: int| fmul::<A>(x[j], x[j])), order),
                ffrom_int::<A>(x.len() as i64),
            );
            let eps = F32 { bits: 0x3586_37BD };
            let y = normed_by::<A>(ws, in_layer(layer, rest), x, order);
            &&& y.len() == x.len()
            &&& y[i] == match u16s_of(ws, name) {
                Some(w) => fmul::<A>(
                    fmul::<A>(x[i], fdiv::<A>(one(), fsqrt::<A>(fadd::<A>(mean, eps)))),
                    of_bf16(w[i]),
                ),
                None => x[i],
            }
        }),
{
    match u16s_of(ws, in_layer(layer, rest)) {
        Some(w) => {
            law_rms_norm::<A>(x, w, rms_norm_eps(), order, i);
        },
        None => {},
    }
}

} // verus!
