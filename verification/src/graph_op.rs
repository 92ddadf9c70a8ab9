//! Tensor operations of a computation graph and their shape inference.
use vstd::prelude::*;

verus! {

/// Errors that can occur during graph operations.
#[derive(Debug)]
pub enum GraphError {
    NodeNotFound(String),
    CircularDependency,
    InvalidGraph(String),
    TypeMismatch { expected: String, actual: String },
    ShapeMismatch(String),
    MissingInput(String),
    ExecutionError(String),
}

/// The variant of a `GraphError`, without its message.
#[derive(PartialEq, Eq, Structural, Clone, Copy, Debug)]
pub enum GraphErrorKind {
    NodeNotFound,
    CircularDependency,
    InvalidGraph,
    TypeMismatch,
    ShapeMismatch,
    MissingInput,
    ExecutionError,
}

impl GraphError {
    pub open spec fn kind(&self) -> GraphErrorKind {
        match self {
            GraphError::NodeNotFound(_) => GraphErrorKind::NodeNotFound,
            GraphError::CircularDependency => GraphErrorKind::CircularDependency,
            GraphError::InvalidGraph(_) => GraphErrorKind::InvalidGraph,
            GraphError::TypeMismatch { .. } => GraphErrorKind::TypeMismatch,
            GraphError::ShapeMismatch(_) => GraphErrorKind::ShapeMismatch,
            GraphError::MissingInput(_) => GraphErrorKind::MissingInput,
            GraphError::ExecutionError(_) => GraphErrorKind::ExecutionError,
        }
    }

    /// The variant of this error.
    pub fn error_kind(&self) -> (k: GraphErrorKind)
        ensures k == self.kind(),
    {
        match self {
            GraphError::NodeNotFound(_) => GraphErrorKind::NodeNotFound,
            GraphError::CircularDependency => GraphErrorKind::CircularDependency,
            GraphError::InvalidGraph(_) => GraphErrorKind::InvalidGraph,
            GraphError::TypeMismatch { .. } => GraphErrorKind::TypeMismatch,
            GraphError::ShapeMismatch(_) => GraphErrorKind::ShapeMismatch,
            GraphError::MissingInput(_) => GraphErrorKind::MissingInput,
            GraphError::ExecutionError(_) => GraphErrorKind::ExecutionError,
        }
    }
}

/// An error message from a literal.
pub fn msg(s: &str) -> (r: String)
    ensures r@ == s@,
{
    String::from_str(s)
}

/// `format!` of the MatMul mismatch message with the two inner dimensions.
/// Nothing is stated of the text.
#[verifier::external_body]
fn matmul_mismatch_message(k1: usize, k2: usize) -> String {
    format!("MatMul dimension mismatch: {} vs {}", k1, k2)
}

/// `format!` of the broadcast failure message with both shapes (their
/// `Debug` form). Nothing is stated of the text.
#[verifier::external_body]
fn broadcast_message(a: &[usize], b: &[usize]) -> String {
    format!("Cannot broadcast shapes: {:?} and {:?}", a, b)
}

#[allow(inconsistent_fields)]
/// Tensor operation types.
///
/// Floating-point parameters (`eps`, `momentum`, `p`, `exponent`, `dropout_p`)
/// are held as their IEEE-754 bit patterns (`f64::to_bits`).
#[derive(Debug)]
pub enum TensorOp {
    Input { name: String },
    Constant { value_cid: String },
    MatMul,
    Add,
    Mul,
    Sub,
    Div,
    Einsum { subscripts: String },
    Reshape { shape: Vec<i64> },
    Transpose { axes: Vec<usize> },
    ReduceSum { axes: Vec<usize>, keepdims: bool },
    ReduceMean { axes: Vec<usize>, keepdims: bool },
    ReLU,
    Tanh,
    Sigmoid,
    GELU,
    Softmax { axis: i64 },
    LayerNorm { normalized_shape: Vec<usize>, eps: u64 },
    BatchNorm { eps: u64, momentum: u64 },
    Dropout { p: u64 },
    Exp,
    Log,
    Pow { exponent: u64 },
    Sqrt,
    Concat { axis: usize },
    Split { axis: usize, sections: Vec<usize> },
    Gather { axis: usize },
    Scatter { axis: usize },
    Slice { start: Vec<i64>, end: Vec<i64>, strides: Vec<i64> },
    Pad { padding: Vec<(usize, usize)>, mode: String },
    FusedLinear,
    FusedAddReLU,
    FusedBatchNormReLU { eps: u64, momentum: u64 },
    FusedLayerNormDropout { normalized_shape: Vec<usize>, eps: u64, dropout_p: u64 },
}

#[allow(inconsistent_fields)]
/// The mathematical value of a `TensorOp`.
pub enum OpSpec {
    Input { name: Seq<char> },
    Constant { value_cid: Seq<char> },
    MatMul,
    Add,
    Mul,
    Sub,
    Div,
    Einsum { subscripts: Seq<char> },
    Reshape { shape: Seq<i64> },
    Transpose { axes: Seq<usize> },
    ReduceSum { axes: Seq<usize>, keepdims: bool },
    ReduceMean { axes: Seq<usize>, keepdims: bool },
    ReLU,
    Tanh,
    Sigmoid,
    GELU,
    Softmax { axis: i64 },
    LayerNorm { normalized_shape: Seq<usize>, eps: u64 },
    BatchNorm { eps: u64, momentum: u64 },
    Dropout { p: u64 },
    Exp,
    Log,
    Pow { exponent: u64 },
    Sqrt,
    Concat { axis: usize },
    Split { axis: usize, sections: Seq<usize> },
    Gather { axis: usize },
    Scatter { axis: usize },
    Slice { start: Seq<i64>, end: Seq<i64>, strides: Seq<i64> },
    Pad { padding: Seq<(usize, usize)>, mode: Seq<char> },
    FusedLinear,
    FusedAddReLU,
    FusedBatchNormReLU { eps: u64, momentum: u64 },
    FusedLayerNormDropout { normalized_shape: Seq<usize>, eps: u64, dropout_p: u64 },
}

impl View for TensorOp {
    type V = OpSpec;

    open spec fn view(&self) -> OpSpec {
        match self {
            TensorOp::Input { name } => OpSpec::Input { name: name@ },
            TensorOp::Constant { value_cid } => OpSpec::Constant { value_cid: value_cid@ },
            TensorOp::MatMul => OpSpec::MatMul,
            TensorOp::Add => OpSpec::Add,
            TensorOp::Mul => OpSpec::Mul,
            TensorOp::Sub => OpSpec::Sub,
            TensorOp::Div => OpSpec::Div,
            TensorOp::Einsum { subscripts } => OpSpec::Einsum { subscripts: subscripts@ },
            TensorOp::Reshape { shape } => OpSpec::Reshape { shape: shape@ },
            TensorOp::Transpose { axes } => OpSpec::Transpose { axes: axes@ },
            TensorOp::ReduceSum { axes, keepdims } => OpSpec::ReduceSum { axes: axes@, keepdims: *keepdims },
            TensorOp::ReduceMean { axes, keepdims } => OpSpec::ReduceMean { axes: axes@, keepdims: *keepdims },
            TensorOp::ReLU => OpSpec::ReLU,
            TensorOp::Tanh => OpSpec::Tanh,
            TensorOp::Sigmoid => OpSpec::Sigmoid,
            TensorOp::GELU => OpSpec::GELU,
            TensorOp::Softmax { axis } => OpSpec::Softmax { axis: *axis },
            TensorOp::LayerNorm { normalized_shape, eps } =>
                OpSpec::LayerNorm { normalized_shape: normalized_shape@, eps: *eps },
            TensorOp::BatchNorm { eps, momentum } => OpSpec::BatchNorm { eps: *eps, momentum: *momentum },
            TensorOp::Dropout { p } => OpSpec::Dropout { p: *p },
            TensorOp::Exp => OpSpec::Exp,
            TensorOp::Log => OpSpec::Log,
            TensorOp::Pow { exponent } => OpSpec::Pow { exponent: *exponent },
            TensorOp::Sqrt => OpSpec::Sqrt,
            TensorOp::Concat { axis } => OpSpec::Concat { axis: *axis },
            TensorOp::Split { axis, sections } => OpSpec::Split { axis: *axis, sections: sections@ },
            TensorOp::Gather { axis } => OpSpec::Gather { axis: *axis },
            TensorOp::Scatter { axis } => OpSpec::Scatter { axis: *axis },
            TensorOp::Slice { start, end, strides } =>
                OpSpec::Slice { start: start@, end: end@, strides: strides@ },
            TensorOp::Pad { padding, mode } => OpSpec::Pad { padding: padding@, mode: mode@ },
            TensorOp::FusedLinear => OpSpec::FusedLinear,
            TensorOp::FusedAddReLU => OpSpec::FusedAddReLU,
            TensorOp::FusedBatchNormReLU { eps, momentum } =>
                OpSpec::FusedBatchNormReLU { eps: *eps, momentum: *momentum },
            TensorOp::FusedLayerNormDropout { normalized_shape, eps, dropout_p } =>
                OpSpec::FusedLayerNormDropout {
                    normalized_shape: normalized_shape@,
                    eps: *eps,
                    dropout_p: *dropout_p,
                },
        }
    }
}

/// Copies a vector of plain values.
pub fn copy_vec<T: Copy>(v: &Vec<T>) -> (r: Vec<T>)
    ensures r@ == v@,
{
    let mut r: Vec<T> = Vec::new();
    let mut i: usize = 0;
    while i < v.len()
        invariant i <= v.len(), r@ == v@.subrange(0, i as int),
        decreases v.len() - i,
    {
        r.push(v[i]);
        i += 1;
    }
    assert(r@ =~= v@);
    r
}

impl Clone for TensorOp {
    fn clone(&self) -> (r: Self)
        ensures r@ == self@,
    {
        match self {
            TensorOp::Input { name } => TensorOp::Input { name: name.clone() },
            TensorOp::Constant { value_cid } => TensorOp::Constant { value_cid: value_cid.clone() },
            TensorOp::MatMul => TensorOp::MatMul,
            TensorOp::Add => TensorOp::Add,
            TensorOp::Mul => TensorOp::Mul,
            TensorOp::Sub => TensorOp::Sub,
            TensorOp::Div => TensorOp::Div,
            TensorOp::Einsum { subscripts } => TensorOp::Einsum { subscripts: subscripts.clone() },
            TensorOp::Reshape { shape } => TensorOp::Reshape { shape: copy_vec(shape) },
            TensorOp::Transpose { axes } => TensorOp::Transpose { axes: copy_vec(axes) },
            TensorOp::ReduceSum { axes, keepdims } =>
                TensorOp::ReduceSum { axes: copy_vec(axes), keepdims: *keepdims },
            TensorOp::ReduceMean { axes, keepdims } =>
                TensorOp::ReduceMean { axes: copy_vec(axes), keepdims: *keepdims },
            TensorOp::ReLU => TensorOp::ReLU,
            TensorOp::Tanh => TensorOp::Tanh,
            TensorOp::Sigmoid => TensorOp::Sigmoid,
            TensorOp::GELU => TensorOp::GELU,
            TensorOp::Softmax { axis } => TensorOp::Softmax { axis: *axis },
            TensorOp::LayerNorm { normalized_shape, eps } =>
                TensorOp::LayerNorm { normalized_shape: copy_vec(normalized_shape), eps: *eps },
            TensorOp::BatchNorm { eps, momentum } => TensorOp::BatchNorm { eps: *eps, momentum: *momentum },
            TensorOp::Dropout { p } => TensorOp::Dropout { p: *p },
            TensorOp::Exp => TensorOp::Exp,
            TensorOp::Log => TensorOp::Log,
            TensorOp::Pow { exponent } => TensorOp::Pow { exponent: *exponent },
            TensorOp::Sqrt => TensorOp::Sqrt,
            TensorOp::Concat { axis } => TensorOp::Concat { axis: *axis },
            TensorOp::Split { axis, sections } => TensorOp::Split { axis: *axis, sections: copy_vec(sections) },
            TensorOp::Gather { axis } => TensorOp::Gather { axis: *axis },
            TensorOp::Scatter { axis } => TensorOp::Scatter { axis: *axis },
            TensorOp::Slice { start, end, strides } => TensorOp::Slice {
                start: copy_vec(start),
                end: copy_vec(end),
                strides: copy_vec(strides),
            },
            TensorOp::Pad { padding, mode } => TensorOp::Pad { padding: copy_vec(padding), mode: mode.clone() },
            TensorOp::FusedLinear => TensorOp::FusedLinear,
            TensorOp::FusedAddReLU => TensorOp::FusedAddReLU,
            TensorOp::FusedBatchNormReLU { eps, momentum } =>
                TensorOp::FusedBatchNormReLU { eps: *eps, momentum: *momentum },
            TensorOp::FusedLayerNormDropout { normalized_shape, eps, dropout_p } =>
                TensorOp::FusedLayerNormDropout {
                    normalized_shape: copy_vec(normalized_shape),
                    eps: *eps,
                    dropout_p: *dropout_p,
                },
        }
    }
}


/// Whether two lists of `i64` hold the same values.
pub fn i64s_eq(a: &Vec<i64>, b: &Vec<i64>) -> (r: bool)
    ensures r == (a@ == b@),
{
    if a.len() != b.len() { return false; }
    let mut i: usize = 0;
    while i < a.len()
        invariant i <= a.len(), a.len() == b.len(), forall|k: int| 0 <= k < i ==> a@[k] == b@[k],
        decreases a.len() - i,
    {
        if a[i] != b[i] { return false; }
        i += 1;
    }
    assert(a@ =~= b@);
    true
}

/// Whether two lists of `usize` hold the same values.
pub fn usizes_eq(a: &Vec<usize>, b: &Vec<usize>) -> (r: bool)
    ensures r == (a@ == b@),
{
    if a.len() != b.len() { return false; }
    let mut i: usize = 0;
    while i < a.len()
        invariant i <= a.len(), a.len() == b.len(), forall|k: int| 0 <= k < i ==> a@[k] == b@[k],
        decreases a.len() - i,
    {
        if a[i] != b[i] { return false; }
        i += 1;
    }
    assert(a@ =~= b@);
    true
}

/// Whether two padding lists hold the same values.
pub fn pads_eq(a: &Vec<(usize, usize)>, b: &Vec<(usize, usize)>) -> (r: bool)
    ensures r == (a@ == b@),
{
    if a.len() != b.len() { return false; }
    let mut i: usize = 0;
    while i < a.len()
        invariant i <= a.len(), a.len() == b.len(), forall|k: int| 0 <= k < i ==> a@[k] == b@[k],
        decreases a.len() - i,
    {
        if a[i].0 != b[i].0 || a[i].1 != b[i].1 { return false; }
        i += 1;
    }
    assert(a@ =~= b@);
    true
}

impl TensorOp {
    /// Whether two operations are the same operation with the same parameters.
    pub fn same_as(&self, other: &TensorOp) -> (r: bool)
        ensures r == (self@ == other@),
    {
        match (self, other) {
            (TensorOp::Input { name: a }, TensorOp::Input { name: b }) => a.eq(b),
            (TensorOp::Constant { value_cid: a }, TensorOp::Constant { value_cid: b }) => a.eq(b),
            (TensorOp::MatMul, TensorOp::MatMul) => true,
            (TensorOp::Add, TensorOp::Add) => true,
            (TensorOp::Mul, TensorOp::Mul) => true,
            (TensorOp::Sub, TensorOp::Sub) => true,
            (TensorOp::Div, TensorOp::Div) => true,
            (TensorOp::Einsum { subscripts: a }, TensorOp::Einsum { subscripts: b }) => a.eq(b),
            (TensorOp::Reshape { shape: a }, TensorOp::Reshape { shape: b }) => i64s_eq(a, b),
            (TensorOp::Transpose { axes: a }, TensorOp::Transpose { axes: b }) => usizes_eq(a, b),
            (TensorOp::ReduceSum { axes: a, keepdims: x }, TensorOp::ReduceSum { axes: b, keepdims: y }) =>
                *x == *y && usizes_eq(a, b),
            (TensorOp::ReduceMean { axes: a, keepdims: x }, TensorOp::ReduceMean { axes: b, keepdims: y }) =>
                *x == *y && usizes_eq(a, b),
            (TensorOp::ReLU, TensorOp::ReLU) => true,
            (TensorOp::Tanh, TensorOp::Tanh) => true,
            (TensorOp::Sigmoid, TensorOp::Sigmoid) => true,
            (TensorOp::GELU, TensorOp::GELU) => true,
            (TensorOp::Softmax { axis: a }, TensorOp::Softmax { axis: b }) => *a == *b,
            (TensorOp::LayerNorm { normalized_shape: a, eps: x }, TensorOp::LayerNorm { normalized_shape: b, eps: y }) =>
                *x == *y && usizes_eq(a, b),
            (TensorOp::BatchNorm { eps: a, momentum: x }, TensorOp::BatchNorm { eps: b, momentum: y }) =>
                *a == *b && *x == *y,
            (TensorOp::Dropout { p: a }, TensorOp::Dropout { p: b }) => *a == *b,
            (TensorOp::Exp, TensorOp::Exp) => true,
            (TensorOp::Log, TensorOp::Log) => true,
            (TensorOp::Pow { exponent: a }, TensorOp::Pow { exponent: b }) => *a == *b,
            (TensorOp::Sqrt, TensorOp::Sqrt) => true,
            (TensorOp::Concat { axis: a }, TensorOp::Concat { axis: b }) => *a == *b,
            (TensorOp::Split { axis: a, sections: x }, TensorOp::Split { axis: b, sections: y }) =>
                *a == *b && usizes_eq(x, y),
            (TensorOp::Gather { axis: a }, TensorOp::Gather { axis: b }) => *a == *b,
            (TensorOp::Scatter { axis: a }, TensorOp::Scatter { axis: b }) => *a == *b,
            (TensorOp::Slice { start: a, end: b, strides: c }, TensorOp::Slice { start: x, end: y, strides: z }) =>
                i64s_eq(a, x) && i64s_eq(b, y) && i64s_eq(c, z),
            (TensorOp::Pad { padding: a, mode: x }, TensorOp::Pad { padding: b, mode: y }) =>
                pads_eq(a, b) && x.eq(y),
            (TensorOp::FusedLinear, TensorOp::FusedLinear) => true,
            (TensorOp::FusedAddReLU, TensorOp::FusedAddReLU) => true,
            (TensorOp::FusedBatchNormReLU { eps: a, momentum: x }, TensorOp::FusedBatchNormReLU { eps: b, momentum: y }) =>
                *a == *b && *x == *y,
            (TensorOp::FusedLayerNormDropout { normalized_shape: a, eps: x, dropout_p: p },
             TensorOp::FusedLayerNormDropout { normalized_shape: b, eps: y, dropout_p: q }) =>
                *x == *y && *p == *q && usizes_eq(a, b),
            _ => false,
        }
    }
}

/// Number of inputs an operation of this kind takes.
pub open spec fn op_num_inputs(op: OpSpec) -> nat {
    match op {
        OpSpec::Input { .. } | OpSpec::Constant { .. } => 0,
        OpSpec::MatMul | OpSpec::Add | OpSpec::Mul | OpSpec::Sub | OpSpec::Div
        | OpSpec::Gather { .. } | OpSpec::Scatter { .. } | OpSpec::FusedAddReLU
        | OpSpec::Einsum { .. } => 2,
        OpSpec::FusedLinear => 3,
        _ => 1,
    }
}

/// Dimension `i` of `a` counted from the last one, with missing leading
/// dimensions taken as 1 (NumPy broadcasting).
pub open spec fn bdim(a: Seq<usize>, i: int) -> usize {
    if 0 <= i < a.len() { a[a.len() - 1 - i] } else { 1 }
}

pub open spec fn max_len(a: Seq<usize>, b: Seq<usize>) -> nat {
    if a.len() >= b.len() { a.len() } else { b.len() }
}

/// Two shapes can be broadcast against each other.
pub open spec fn broadcastable(a: Seq<usize>, b: Seq<usize>) -> bool {
    forall|i: int| 0 <= i < max_len(a, b) ==>
        bdim(a, i) == bdim(b, i) || bdim(a, i) == 1 || bdim(b, i) == 1
}

/// The broadcast shape of two broadcastable shapes.
pub open spec fn broadcast_shape(a: Seq<usize>, b: Seq<usize>) -> Seq<usize> {
    Seq::new(max_len(a, b), |k: int| {
        let i = max_len(a, b) - 1 - k;
        if bdim(a, i) == 1 { bdim(b, i) } else { bdim(a, i) }
    })
}

pub open spec fn broadcast_spec(a: Seq<usize>, b: Seq<usize>) -> Result<Seq<usize>, GraphErrorKind> {
    if broadcastable(a, b) { Ok(broadcast_shape(a, b)) } else { Err(GraphErrorKind::ShapeMismatch) }
}

/// Dimensions of `shape` among the first `n` whose index is not in `axes`.
pub open spec fn kept_dims(shape: Seq<usize>, axes: Seq<usize>, n: nat) -> Seq<usize>
    decreases n,
{
    if n == 0 {
        Seq::empty()
    } else {
        let prev = kept_dims(shape, axes, (n - 1) as nat);
        if axes.contains((n - 1) as usize) { prev } else { prev.push(shape[n - 1]) }
    }
}

/// `shape` with every dimension listed in `axes` set to 1.
pub open spec fn keepdims_shape(shape: Seq<usize>, axes: Seq<usize>) -> Seq<usize> {
    Seq::new(shape.len(), |i: int| if axes.contains(i as usize) { 1usize } else { shape[i] })
}

pub open spec fn reduce_spec(shape: Seq<usize>, axes: Seq<usize>, keepdims: bool) -> Seq<usize> {
    if keepdims { keepdims_shape(shape, axes) } else { kept_dims(shape, axes, shape.len()) }
}

/// Index of the first shape from 1 on whose rank differs from the first shape's,
/// or the number of shapes.
pub open spec fn first_rank_mismatch(shapes: Seq<Seq<usize>>, from: nat) -> nat
    decreases shapes.len() - from,
{
    if from >= shapes.len() {
        shapes.len()
    } else if shapes[from as int].len() != shapes[0].len() {
        from
    } else {
        first_rank_mismatch(shapes, from + 1)
    }
}

/// Sum of dimension `axis` over the first `n` shapes.
pub open spec fn axis_sum(shapes: Seq<Seq<usize>>, axis: int, n: nat) -> int
    decreases n,
{
    if n == 0 { 0 } else { axis_sum(shapes, axis, (n - 1) as nat) + shapes[n - 1][axis] }
}

pub open spec fn slice_len(start: Seq<i64>, end: Seq<i64>) -> nat {
    if start.len() <= end.len() { start.len() } else { end.len() }
}

pub open spec fn slice_shape(start: Seq<i64>, end: Seq<i64>) -> Seq<usize> {
    Seq::new(slice_len(start, end), |i: int|
        if end[i] - start[i] < 0 { 0usize } else { (end[i] - start[i]) as usize })
}

pub open spec fn pad_len(shape: Seq<usize>, padding: Seq<(usize, usize)>) -> nat {
    if shape.len() <= padding.len() { shape.len() } else { padding.len() }
}

pub open spec fn pad_shape(shape: Seq<usize>, padding: Seq<(usize, usize)>) -> Seq<usize> {
    Seq::new(pad_len(shape, padding), |i: int|
        (shape[i] + padding[i].0 + padding[i].1) as usize)
}

/// The matrix-product shape `a[..-2] ++ [a[-2], b[-1]]`.
pub open spec fn matmul_shape(a: Seq<usize>, b: Seq<usize>) -> Seq<usize> {
    a.subrange(0, a.len() - 2).push(a[a.len() - 2]).push(b[b.len() - 1])
}

pub open spec fn first_or_missing(shapes: Seq<Seq<usize>>) -> Result<Seq<usize>, GraphErrorKind> {
    if shapes.len() == 0 { Err(GraphErrorKind::MissingInput) } else { Ok(shapes[0]) }
}

/// The output shape an operation yields on the given input shapes.
pub open spec fn infer_spec(op: OpSpec, shapes: Seq<Seq<usize>>) -> Result<Seq<usize>, GraphErrorKind> {
    match op {
        OpSpec::Input { .. } | OpSpec::Constant { .. } => Err(GraphErrorKind::InvalidGraph),
        OpSpec::Add | OpSpec::Mul | OpSpec::Sub | OpSpec::Div | OpSpec::FusedAddReLU => {
            if shapes.len() < 2 { Err(GraphErrorKind::MissingInput) } else { broadcast_spec(shapes[0], shapes[1]) }
        },
        OpSpec::MatMul => {
            if shapes.len() < 2 {
                Err(GraphErrorKind::MissingInput)
            } else if shapes[0].len() < 2 || shapes[1].len() < 2 {
                Err(GraphErrorKind::ShapeMismatch)
            } else if shapes[0][shapes[0].len() - 1] != shapes[1][shapes[1].len() - 2] {
                Err(GraphErrorKind::ShapeMismatch)
            } else {
                Ok(matmul_shape(shapes[0], shapes[1]))
            }
        },
        OpSpec::FusedLinear => {
            if shapes.len() < 3 {
                Err(GraphErrorKind::MissingInput)
            } else if shapes[0].len() < 2 || shapes[1].len() < 2 {
                Err(GraphErrorKind::ShapeMismatch)
            } else {
                Ok(matmul_shape(shapes[0], shapes[1]))
            }
        },
        OpSpec::Reshape { shape } => Ok(Seq::new(shape.len(), |i: int| shape[i] as usize)),
        OpSpec::Transpose { axes } => {
            if shapes.len() == 0 {
                Err(GraphErrorKind::MissingInput)
            } else if axes.len() != shapes[0].len() {
                Err(GraphErrorKind::ShapeMismatch)
            } else {
                Ok(Seq::new(axes.len(), |i: int| shapes[0][axes[i] as int]))
            }
        },
        OpSpec::ReduceSum { axes, keepdims } | OpSpec::ReduceMean { axes, keepdims } => {
            if shapes.len() == 0 { Err(GraphErrorKind::MissingInput) } else { Ok(reduce_spec(shapes[0], axes, keepdims)) }
        },
        OpSpec::Concat { axis } => {
            if shapes.len() == 0 {
                Err(GraphErrorKind::MissingInput)
            } else if axis >= shapes[0].len() {
                Err(GraphErrorKind::ShapeMismatch)
            } else if first_rank_mismatch(shapes, 1) < shapes.len() {
                Err(GraphErrorKind::ShapeMismatch)
            } else {
                Ok(shapes[0].update(axis as int, axis_sum(shapes, axis as int, shapes.len()) as usize))
            }
        },
        OpSpec::Slice { start, end, .. } => {
            if shapes.len() == 0 {
                Err(GraphErrorKind::MissingInput)
            } else if slice_len(start, end) != shapes[0].len() {
                Err(GraphErrorKind::ShapeMismatch)
            } else {
                Ok(slice_shape(start, end))
            }
        },
        OpSpec::Pad { padding, .. } => {
            if shapes.len() == 0 { Err(GraphErrorKind::MissingInput) } else { Ok(pad_shape(shapes[0], padding)) }
        },
        _ => first_or_missing(shapes),
    }
}

/// The inputs on which shape inference does not overflow or index out of range.
pub open spec fn infer_defined(op: OpSpec, shapes: Seq<Seq<usize>>) -> bool {
    match op {
        OpSpec::Transpose { axes } =>
            shapes.len() > 0 && axes.len() == shapes[0].len() ==>
                forall|i: int| 0 <= i < axes.len() ==> axes[i] < shapes[0].len(),
        OpSpec::Concat { axis } =>
            shapes.len() > 0 && axis < shapes[0].len() ==>
                axis_sum(shapes, axis as int, first_rank_mismatch(shapes, 1)) <= usize::MAX,
        OpSpec::Slice { start, end, .. } =>
            shapes.len() > 0 ==> forall|i: int| 0 <= i < slice_len(start, end) ==>
                i64::MIN <= #[trigger] end[i] - start[i] <= i64::MAX,
        OpSpec::Pad { padding, .. } =>
            shapes.len() > 0 ==> forall|i: int| 0 <= i < pad_len(shapes[0], padding) ==>
                shapes[0][i] + padding[i].0 + padding[i].1 <= usize::MAX,
        _ => true,
    }
}

/// The views of a list of shapes.
pub open spec fn shapes_view(shapes: Seq<Vec<usize>>) -> Seq<Seq<usize>> {
    shapes.map_values(|s: Vec<usize>| s@)
}

/// Whether `r` is the result `s` describes (the error by its variant).
pub open spec fn shape_result_matches(r: Result<Vec<usize>, GraphError>, s: Result<Seq<usize>, GraphErrorKind>) -> bool {
    match (r, s) {
        (Ok(v), Ok(w)) => v@ == w,
        (Err(e), Err(k)) => e.kind() == k,
        _ => false,
    }
}

fn first_shape(input_shapes: &Vec<Vec<usize>>) -> (r: Result<Vec<usize>, GraphError>)
    ensures shape_result_matches(r, first_or_missing(shapes_view(input_shapes@))),
{
    if input_shapes.len() == 0 {
        return Err(GraphError::MissingInput(msg("No input shapes provided")));
    }
    Ok(copy_vec(&input_shapes[0]))
}

impl TensorOp {
    /// Number of inputs required by this operation.
    pub fn num_inputs(&self) -> (n: usize)
        ensures n == op_num_inputs(self@),
    {
        match self {
            TensorOp::Input { .. } | TensorOp::Constant { .. } => 0,
            TensorOp::MatMul | TensorOp::Add | TensorOp::Mul | TensorOp::Sub | TensorOp::Div
            | TensorOp::Gather { .. } | TensorOp::Scatter { .. } | TensorOp::FusedAddReLU
            | TensorOp::Einsum { .. } => 2,
            TensorOp::FusedLinear => 3,
            _ => 1,
        }
    }

    /// Whether this operation is free of side effects (all operations are).
    pub fn is_pure(&self) -> (r: bool)
        ensures r,
    {
        true
    }

    /// Broadcast two shapes according to NumPy broadcasting rules.
    pub fn broadcast_shapes(a: &[usize], b: &[usize]) -> (r: Result<Vec<usize>, GraphError>)
        ensures
            match r {
                Ok(v) => broadcastable(a@, b@) && v@ == broadcast_shape(a@, b@),
                Err(e) => !broadcastable(a@, b@) && e.kind() == GraphErrorKind::ShapeMismatch,
            },
    {
        let n = if a.len() >= b.len() { a.len() } else { b.len() };
        let mut rev: Vec<usize> = Vec::new();
        let mut i: usize = 0;
        while i < n
            invariant
                n == max_len(a@, b@),
                i <= n,
                rev.len() == i,
                forall|j: int| 0 <= j < i ==> bdim(a@, j) == bdim(b@, j) || bdim(a@, j) == 1 || bdim(b@, j) == 1,
                forall|j: int| 0 <= j < i ==>
                    rev@[j] == (if bdim(a@, j) == 1 { bdim(b@, j) } else { bdim(a@, j) }),
            decreases n - i,
        {
            let da = if i < a.len() { a[a.len() - 1 - i] } else { 1 };
            let db = if i < b.len() { b[b.len() - 1 - i] } else { 1 };
            assert(da == bdim(a@, i as int) && db == bdim(b@, i as int));
            if da == db {
                rev.push(da);
            } else if da == 1 {
                rev.push(db);
            } else if db == 1 {
                rev.push(da);
            } else {
                assert(!broadcastable(a@, b@));
                return Err(GraphError::ShapeMismatch(broadcast_message(a, b)));
            }
            i += 1;
        }
        let mut out: Vec<usize> = Vec::new();
        let mut k: usize = 0;
        while k < n
            invariant
                n == rev.len(),
                k <= n,
                out.len() == k,
                forall|j: int| 0 <= j < k ==> out@[j] == rev@[n - 1 - j],
            decreases n - k,
        {
            out.push(rev[n - 1 - k]);
            k += 1;
        }
        assert(out@ =~= broadcast_shape(a@, b@));
        Ok(out)
    }

    /// Infer the output shape of this operation from its input shapes.
    pub fn infer_output_shape(&self, input_shapes: &Vec<Vec<usize>>) -> (r: Result<Vec<usize>, GraphError>)
        requires infer_defined(self@, shapes_view(input_shapes@)),
        ensures shape_result_matches(r, infer_spec(self@, shapes_view(input_shapes@))),
    {
        let ghost sv = shapes_view(input_shapes@);
        match self {
            TensorOp::Input { .. } | TensorOp::Constant { .. } => Err(GraphError::InvalidGraph(
                msg("Cannot infer shape for input/constant nodes without explicit shape"),
            )),
            TensorOp::Add | TensorOp::Mul | TensorOp::Sub | TensorOp::Div | TensorOp::FusedAddReLU => {
                if input_shapes.len() < 2 {
                    return Err(GraphError::MissingInput(msg("Binary operation requires 2 inputs")));
                }
                Self::broadcast_shapes(input_shapes[0].as_slice(), input_shapes[1].as_slice())
            },
            TensorOp::MatMul | TensorOp::FusedLinear => {
                let is_linear = match self { TensorOp::FusedLinear => true, _ => false };
                if input_shapes.len() < 2 || (is_linear && input_shapes.len() < 3) {
                    let m = if is_linear { msg("FusedLinear requires 3 inputs") } else { msg("MatMul requires 2 inputs") };
                    return Err(GraphError::MissingInput(m));
                }
                let a = &input_shapes[0];
                let b = &input_shapes[1];
                assert(a@ == sv[0] && b@ == sv[1]);
                if a.len() < 2 || b.len() < 2 {
                    let m = if is_linear {
                        msg("Linear requires at least 2D tensors")
                    } else {
                        msg("MatMul requires at least 2D tensors")
                    };
                    return Err(GraphError::ShapeMismatch(m));
                }
                let m = a[a.len() - 2];
                let k1 = a[a.len() - 1];
                let k2 = b[b.len() - 2];
                let n = b[b.len() - 1];
                if !is_linear && k1 != k2 {
                    return Err(GraphError::ShapeMismatch(matmul_mismatch_message(k1, k2)));
                }
                let mut result: Vec<usize> = Vec::new();
                let mut i: usize = 0;
                while i < a.len() - 2
                    invariant i <= a.len() - 2, a.len() >= 2, result@ == a@.subrange(0, i as int),
                    decreases a.len() - 2 - i,
                {
                    result.push(a[i]);
                    i += 1;
                }
                result.push(m);
                result.push(n);
                assert(result@ =~= matmul_shape(a@, b@));
                Ok(result)
            },
            TensorOp::Reshape { shape } => {
                let mut out: Vec<usize> = Vec::new();
                let mut i: usize = 0;
                while i < shape.len()
                    invariant i <= shape.len(), out.len() == i,
                        forall|j: int| 0 <= j < i ==> out@[j] == shape@[j] as usize,
                    decreases shape.len() - i,
                {
                    out.push(#[verifier::truncate] (shape[i] as usize));
                    i += 1;
                }
                assert(out@ =~= Seq::new(shape@.len(), |j: int| shape@[j] as usize));
                Ok(out)
            },
            TensorOp::Transpose { axes } => {
                if input_shapes.len() == 0 {
                    return Err(GraphError::MissingInput(msg("No input shapes provided")));
                }
                let input_shape = &input_shapes[0];
                assert(input_shape@ == sv[0]);
                if axes.len() != input_shape.len() {
                    return Err(GraphError::ShapeMismatch(msg("Transpose axes must match input dimensions")));
                }
                let mut out: Vec<usize> = Vec::new();
                let mut i: usize = 0;
                while i < axes.len()
                    invariant i <= axes.len(), out.len() == i, axes.len() == input_shape.len(),
                        forall|j: int| 0 <= j < axes.len() ==> axes@[j] < input_shape.len(),
                        forall|j: int| 0 <= j < i ==> out@[j] == input_shape@[axes@[j] as int],
                    decreases axes.len() - i,
                {
                    out.push(input_shape[axes[i]]);
                    i += 1;
                }
                assert(out@ =~= Seq::new(axes@.len(), |j: int| sv[0][axes@[j] as int]));
                Ok(out)
            },
            TensorOp::ReduceSum { axes, keepdims } | TensorOp::ReduceMean { axes, keepdims } => {
                if input_shapes.len() == 0 {
                    return Err(GraphError::MissingInput(msg("No input shapes provided")));
                }
                let input_shape = &input_shapes[0];
                assert(input_shape@ == sv[0]);
                Ok(reduce_shape(input_shape, axes, *keepdims))
            },
            TensorOp::Concat { axis } => {
                if input_shapes.len() == 0 {
                    return Err(GraphError::MissingInput(msg("Concat requires at least one input")));
                }
                let axis = *axis;
                let mut out = copy_vec(&input_shapes[0]);
                assert(out@ == sv[0]);
                if axis >= out.len() {
                    return Err(GraphError::ShapeMismatch(msg("Invalid concat axis")));
                }
                proof {
                    lemma_frm_bounds(sv, 1);
                    assert(axis_sum(sv, axis as int, 0) == 0);
                    assert(axis_sum(sv, axis as int, 1) == sv[0][axis as int]);
                    lemma_axis_sum_mono(sv, axis as int, 1, first_rank_mismatch(sv, 1));
                    assert(out@ =~= sv[0].update(axis as int, axis_sum(sv, axis as int, 1) as usize));
                }
                let mut i: usize = 1;
                while i < input_shapes.len()
                    invariant
                        1 <= i <= input_shapes.len(),
                        sv == shapes_view(input_shapes@),
                        self@ == (OpSpec::Concat { axis }),
                        axis < sv[0].len(),
                        0 <= axis_sum(sv, axis as int, i as nat),
                        axis < out.len(),
                        out.len() == sv[0].len(),
                        first_rank_mismatch(sv, 1) == first_rank_mismatch(sv, i as nat),
                        axis_sum(sv, axis as int, first_rank_mismatch(sv, 1)) <= usize::MAX,
                        out@ == sv[0].update(axis as int, axis_sum(sv, axis as int, i as nat) as usize),
                        axis_sum(sv, axis as int, i as nat) <= axis_sum(sv, axis as int, first_rank_mismatch(sv, 1)),
                    decreases input_shapes.len() - i,
                {
                    let shape = &input_shapes[i];
                    assert(shape@ == sv[i as int]);
                    if shape.len() != out.len() {
                        assert(first_rank_mismatch(sv, i as nat) == i);
                        return Err(GraphError::ShapeMismatch(msg("Concat inputs must have same rank")));
                    }
                    proof {
                        assert(first_rank_mismatch(sv, i as nat) == first_rank_mismatch(sv, (i + 1) as nat));
                        lemma_frm_bounds(sv, (i + 1) as nat);
                        lemma_axis_sum_mono(sv, axis as int, (i + 1) as nat, first_rank_mismatch(sv, (i + 1) as nat));
                        assert(axis_sum(sv, axis as int, (i + 1) as nat) == axis_sum(sv, axis as int, i as nat) + sv[i as int][axis as int]);
                        assert(out@[axis as int] == axis_sum(sv, axis as int, i as nat));
                    }
                    let add = shape[axis];
                    let cur = out[axis];
                    out.set(axis, cur + add);
                    assert(out@ =~= sv[0].update(axis as int, axis_sum(sv, axis as int, (i + 1) as nat) as usize));
                    i += 1;
                }
                Ok(out)
            },
            TensorOp::Slice { start, end, .. } => {
                if input_shapes.len() == 0 {
                    return Err(GraphError::MissingInput(msg("No input shapes provided")));
                }
                let input_shape = &input_shapes[0];
                assert(input_shape@ == sv[0]);
                let n = if start.len() <= end.len() { start.len() } else { end.len() };
                let mut out: Vec<usize> = Vec::new();
                let mut i: usize = 0;
                while i < n
                    invariant i <= n, n == slice_len(start@, end@), out.len() == i,
                        forall|j: int| 0 <= j < n ==> i64::MIN <= #[trigger] end@[j] - start@[j] <= i64::MAX,
                        forall|j: int| 0 <= j < i ==> out@[j] == slice_shape(start@, end@)[j],
                    decreases n - i,
                {
                    let d = end[i] - start[i];
                    out.push(if d < 0 { 0 } else { #[verifier::truncate] (d as usize) });
                    i += 1;
                }
                if out.len() != input_shape.len() {
                    return Err(GraphError::ShapeMismatch(msg("Slice dimensions must match input")));
                }
                assert(out@ =~= slice_shape(start@, end@));
                Ok(out)
            },
            TensorOp::Pad { padding, .. } => {
                if input_shapes.len() == 0 {
                    return Err(GraphError::MissingInput(msg("No input shapes provided")));
                }
                let input_shape = &input_shapes[0];
                assert(input_shape@ == sv[0]);
                let n = if input_shape.len() <= padding.len() { input_shape.len() } else { padding.len() };
                let mut out: Vec<usize> = Vec::new();
                let mut i: usize = 0;
                while i < n
                    invariant i <= n, n == pad_len(input_shape@, padding@), out.len() == i,
                        forall|j: int| 0 <= j < n ==> input_shape@[j] + padding@[j].0 + padding@[j].1 <= usize::MAX,
                        forall|j: int| 0 <= j < i ==> out@[j] == pad_shape(input_shape@, padding@)[j],
                    decreases n - i,
                {
                    let (before, after) = padding[i];
                    out.push(input_shape[i] + before + after);
                    i += 1;
                }
                assert(out@ =~= pad_shape(input_shape@, padding@));
                Ok(out)
            },
            _ => first_shape(input_shapes),
        }
    }
}

proof fn lemma_frm_bounds(shapes: Seq<Seq<usize>>, from: nat)
    requires from <= shapes.len(),
    ensures from <= first_rank_mismatch(shapes, from) <= shapes.len(),
    decreases shapes.len() - from,
{
    if from < shapes.len() && shapes[from as int].len() == shapes[0].len() {
        lemma_frm_bounds(shapes, from + 1);
    }
}

proof fn lemma_axis_sum_mono(shapes: Seq<Seq<usize>>, axis: int, a: nat, b: nat)
    requires a <= b,
    ensures axis_sum(shapes, axis, a) <= axis_sum(shapes, axis, b),
    decreases b - a,
{
    if a < b {
        lemma_axis_sum_mono(shapes, axis, a, (b - 1) as nat);
    }
}

/// `shape` reduced along `axes`, keeping reduced axes as 1 when `keepdims`.
pub fn reduce_shape(shape: &Vec<usize>, axes: &Vec<usize>, keepdims: bool) -> (r: Vec<usize>)
    ensures r@ == reduce_spec(shape@, axes@, keepdims),
{
    if keepdims {
        let mut out = copy_vec(shape);
        let mut k: usize = 0;
        while k < axes.len()
            invariant k <= axes.len(), out.len() == shape.len(),
                forall|j: int| 0 <= j < shape.len() ==>
                    out@[j] == (if axes@.subrange(0, k as int).contains(j as usize) { 1usize } else { shape@[j] }),
            decreases axes.len() - k,
        {
            let axis = axes[k];
            if axis < out.len() {
                out.set(axis, 1);
            }
            proof {
                assert(axes@.subrange(0, k + 1) =~= axes@.subrange(0, k as int).push(axis));
                assert forall|j: int| 0 <= j < shape.len() implies
                    out@[j] == (if axes@.subrange(0, k + 1).contains(j as usize) { 1usize } else { shape@[j] }) by {
                    lemma_push_contains(axes@.subrange(0, k as int), axis, j as usize);
                }
            }
            k += 1;
        }
        assert(axes@.subrange(0, axes.len() as int) =~= axes@);
        assert(out@ =~= keepdims_shape(shape@, axes@));
        out
    } else {
        let mut out: Vec<usize> = Vec::new();
        let mut i: usize = 0;
        while i < shape.len()
            invariant i <= shape.len(), out@ == kept_dims(shape@, axes@, i as nat),
            decreases shape.len() - i,
        {
            if !contains_usize(axes, i) {
                out.push(shape[i]);
            }
            i += 1;
        }
        out
    }
}

proof fn lemma_push_contains<T>(s: Seq<T>, a: T, x: T)
    ensures s.push(a).contains(x) <==> (s.contains(x) || x == a),
{
    if s.contains(x) {
        let w = choose|w: int| 0 <= w < s.len() && s[w] == x;
        assert(s.push(a)[w] == x);
    }
    if x == a {
        assert(s.push(a)[s.len() as int] == x);
    }
    if s.push(a).contains(x) && x != a {
        let w = choose|w: int| 0 <= w < s.len() + 1 && s.push(a)[w] == x;
        assert(s[w] == x);
    }
}

/// Whether `v` holds `x`.
pub fn contains_usize(v: &Vec<usize>, x: usize) -> (r: bool)
    ensures r == v@.contains(x),
{
    let mut i: usize = 0;
    while i < v.len()
        invariant i <= v.len(), forall|j: int| 0 <= j < i ==> v@[j] != x,
        decreases v.len() - i,
    {
        if v[i] == x {
            assert(v@[i as int] == x);
            return true;
        }
        i += 1;
    }
    false
}

/// Padding grows each dimension by its before- and after-padding: on a
/// first input shape `s`, the inferred shape has one dimension per padded
/// axis, and dimension `i` is `s[i] + padding[i].0 + padding[i].1`.
pub proof fn lemma_pad_grows_dims(
    padding: Seq<(usize, usize)>, mode: Seq<char>, shapes: Seq<Seq<usize>>, r: Result<Vec<usize>, GraphError>,
)
    requires
        shapes.len() > 0,
        infer_defined(OpSpec::Pad { padding, mode }, shapes),
        shape_result_matches(r, infer_spec(OpSpec::Pad { padding, mode }, shapes)),
    ensures
        r matches Ok(v) && v@.len() == (if shapes[0].len() <= padding.len() { shapes[0].len() } else { padding.len() })
            && forall|i: int| 0 <= i < v@.len() ==> #[trigger] v@[i] == shapes[0][i] + padding[i].0 + padding[i].1,
{
}

/// A matrix product keeps the leading (batch) dimensions of its first
/// input and ends in (rows of the first, columns of the second); it is
/// refused exactly when the inner dimensions differ or an input has fewer
/// than two dimensions.
pub proof fn lemma_matmul_dims(shapes: Seq<Seq<usize>>, r: Result<Vec<usize>, GraphError>)
    requires shapes.len() >= 2, shape_result_matches(r, infer_spec(OpSpec::MatMul, shapes)),
    ensures
        r is Ok <==> shapes[0].len() >= 2 && shapes[1].len() >= 2
            && shapes[0][shapes[0].len() - 1] == shapes[1][shapes[1].len() - 2],
        r matches Ok(v) ==> {
            &&& v@.len() == shapes[0].len()
            &&& forall|i: int| 0 <= i < shapes[0].len() - 2 ==> #[trigger] v@[i] == shapes[0][i]
            &&& v@[v@.len() - 2] == shapes[0][shapes[0].len() - 2]
            &&& v@[v@.len() - 1] == shapes[1][shapes[1].len() - 1]
        },
{
}

/// A transpose permutes dimensions: output dimension `i` is input dimension
/// `axes[i]`; it is refused exactly when the axes do not match the rank.
pub proof fn lemma_transpose_dims(axes: Seq<usize>, shapes: Seq<Seq<usize>>, r: Result<Vec<usize>, GraphError>)
    requires shapes.len() > 0, shape_result_matches(r, infer_spec(OpSpec::Transpose { axes }, shapes)),
    ensures
        r is Ok <==> axes.len() == shapes[0].len(),
        r matches Ok(v) ==> v@.len() == axes.len() && forall|i: int| 0 <= i < axes.len() ==> #[trigger] v@[i] == shapes[0][axes[i] as int],
{
}

/// A slice has, per axis, the length from start to end (0 when the end
/// comes first); it is refused exactly when the bounds do not match the rank.
pub proof fn lemma_slice_dims(start: Seq<i64>, end: Seq<i64>, strides: Seq<i64>, shapes: Seq<Seq<usize>>, r: Result<Vec<usize>, GraphError>)
    requires
        shapes.len() > 0,
        infer_defined(OpSpec::Slice { start, end, strides }, shapes),
        shape_result_matches(r, infer_spec(OpSpec::Slice { start, end, strides }, shapes)),
    ensures
        r is Ok <==> (if start.len() <= end.len() { start.len() } else { end.len() }) == shapes[0].len(),
        r matches Ok(v) ==> v@.len() == shapes[0].len() && forall|i: int| 0 <= i < v@.len() ==>
            #[trigger] v@[i] == (if end[i] >= start[i] { (end[i] - start[i]) as usize } else { 0usize }),
{
}

/// A concatenation keeps every dimension of the first input except the
/// axis, which becomes the sum of that dimension over all inputs.
pub proof fn lemma_concat_dims(axis: usize, shapes: Seq<Seq<usize>>, r: Result<Vec<usize>, GraphError>)
    requires
        shapes.len() > 0,
        infer_defined(OpSpec::Concat { axis }, shapes),
        shape_result_matches(r, infer_spec(OpSpec::Concat { axis }, shapes)),
    ensures
        r is Ok <==> axis < shapes[0].len() && forall|k: int| 0 <= k < shapes.len() ==> (#[trigger] shapes[k]).len() == shapes[0].len(),
        r matches Ok(v) ==> {
            &&& v@.len() == shapes[0].len()
            &&& forall|i: int| 0 <= i < v@.len() && i != axis ==> #[trigger] v@[i] == shapes[0][i]
            &&& v@[axis as int] == axis_sum(shapes, axis as int, shapes.len())
        },
{
    lemma_rank_mismatch(shapes, 1);
    if axis < shapes[0].len() && first_rank_mismatch(shapes, 1) >= shapes.len() {
        assert(first_rank_mismatch(shapes, 1) == shapes.len());
        lemma_axis_sum_nonneg(shapes, axis as int, shapes.len());
    }
}

proof fn lemma_axis_sum_nonneg(shapes: Seq<Seq<usize>>, axis: int, n: nat)
    ensures axis_sum(shapes, axis, n) >= 0,
    decreases n,
{
    if n > 0 {
        lemma_axis_sum_nonneg(shapes, axis, (n - 1) as nat);
    }
}

/// The first rank mismatch from `from` on is past the end exactly when every
/// shape from `from` on has the first shape's rank.
proof fn lemma_rank_mismatch(shapes: Seq<Seq<usize>>, from: nat)
    requires shapes.len() > 0, from >= 1,
    ensures
        first_rank_mismatch(shapes, from) >= shapes.len()
            <==> forall|k: int| from <= k < shapes.len() ==> (#[trigger] shapes[k]).len() == shapes[0].len(),
        first_rank_mismatch(shapes, from) <= shapes.len(),
    decreases shapes.len() - from,
{
    if from < shapes.len() {
        lemma_rank_mismatch(shapes, from + 1);
    }
}

/// Broadcasting aligns shapes at their last dimensions: the result has the
/// longer rank, and each dimension is that of either input where the other
/// is 1 or missing, or their common size; shapes with two different sizes
/// other than 1 at an aligned position are refused.
pub proof fn lemma_broadcast_dims(a: Seq<usize>, b: Seq<usize>, r: Result<Vec<usize>, GraphError>)
    requires shape_result_matches(r, infer_spec(OpSpec::Add, seq![a, b])),
    ensures
        r is Ok <==> forall|i: int| 0 <= i < a.len() && 0 <= i < b.len() ==>
            #[trigger] a[a.len() - 1 - i] == b[b.len() - 1 - i] || a[a.len() - 1 - i] == 1 || b[b.len() - 1 - i] == 1,
        r matches Ok(v) ==> {
            &&& v@.len() == (if a.len() >= b.len() { a.len() } else { b.len() })
            &&& forall|i: int| 0 <= i < v@.len() ==> {
                let da = if i < a.len() { a[a.len() - 1 - i] } else { 1usize };
                let db = if i < b.len() { b[b.len() - 1 - i] } else { 1usize };
                #[trigger] v@[v@.len() - 1 - i] == (if da == 1 { db } else { da })
            }
        },
{
    let sh = seq![a, b];
    assert(sh[0] == a && sh[1] == b);
    assert(forall|i: int| 0 <= i < a.len() ==> bdim(a, i) == #[trigger] a[a.len() - 1 - i]);
    assert(forall|i: int| 0 <= i < b.len() ==> bdim(b, i) == #[trigger] b[b.len() - 1 - i]);
    if r is Ok {
        assert forall|i: int| 0 <= i < a.len() && 0 <= i < b.len() implies
            #[trigger] a[a.len() - 1 - i] == b[b.len() - 1 - i] || a[a.len() - 1 - i] == 1 || b[b.len() - 1 - i] == 1 by {
            assert(bdim(a, i) == a[a.len() - 1 - i] && bdim(b, i) == b[b.len() - 1 - i]);
        }
    } else {
        let k = choose|k: int| 0 <= k < max_len(a, b) && !(bdim(a, k) == bdim(b, k) || bdim(a, k) == 1 || bdim(b, k) == 1);
        assert(0 <= k < a.len() && 0 <= k < b.len());
        assert(bdim(a, k) == a[a.len() - 1 - k] && bdim(b, k) == b[b.len() - 1 - k]);
    }
    if let Ok(v) = r {
        assert forall|i: int| 0 <= i < v@.len() implies {
            let da = if i < a.len() { a[a.len() - 1 - i] } else { 1usize };
            let db = if i < b.len() { b[b.len() - 1 - i] } else { 1usize };
            #[trigger] v@[v@.len() - 1 - i] == (if da == 1 { db } else { da })
        } by {
            let k = v@.len() - 1 - i;
            assert(max_len(a, b) - 1 - k == i);
        }
    }
}

/// Element-wise and normalising operations of one input keep its shape.
pub proof fn lemma_unary_keeps_shape(op: OpSpec, shapes: Seq<Seq<usize>>, r: Result<Vec<usize>, GraphError>)
    requires
        op is ReLU || op is Tanh || op is Sigmoid || op is GELU || op is Exp || op is Log || op is Sqrt
            || op is Dropout || op is Softmax || op is LayerNorm || op is BatchNorm || op is Pow
            || op is FusedBatchNormReLU || op is FusedLayerNormDropout,
        shapes.len() > 0,
        shape_result_matches(r, infer_spec(op, shapes)),
    ensures r matches Ok(v) && v@ == shapes[0],
{
}

/// The number of inputs an operation takes is the number shape inference
/// needs: element-wise binary operations and matrix products take two,
/// a fused linear layer three, and shape inference on fewer input shapes
/// reports a missing input; element-wise unary operations take one, and
/// inference on no shapes reports a missing input.
pub proof fn lemma_arity_matches_inference(op: OpSpec, shapes: Seq<Seq<usize>>)
    requires
        op is Add || op is Mul || op is Sub || op is Div || op is FusedAddReLU || op is MatMul || op is FusedLinear
            || op is ReLU || op is Tanh || op is Sigmoid || op is GELU || op is Exp || op is Log || op is Sqrt,
    ensures
        op is FusedLinear ==> op_num_inputs(op) == 3,
        (op is Add || op is Mul || op is Sub || op is Div || op is FusedAddReLU || op is MatMul) ==> op_num_inputs(op) == 2,
        (op is ReLU || op is Tanh || op is Sigmoid || op is GELU || op is Exp || op is Log || op is Sqrt) ==> op_num_inputs(op) == 1,
        shapes.len() < op_num_inputs(op) ==> infer_spec(op, shapes) == Err::<Seq<usize>, GraphErrorKind>(GraphErrorKind::MissingInput),
{
}

/// A reshape yields exactly the requested dimensions, whatever its input.
pub proof fn lemma_reshape_dims(shape: Seq<i64>, shapes: Seq<Seq<usize>>, r: Result<Vec<usize>, GraphError>)
    requires shape_result_matches(r, infer_spec(OpSpec::Reshape { shape }, shapes)),
    ensures r matches Ok(v) && v@.len() == shape.len() && forall|i: int| 0 <= i < shape.len() ==> #[trigger] v@[i] == shape[i] as usize,
{
}

/// A reduction that keeps dimensions keeps the rank, sets every reduced
/// dimension to 1 and leaves the others as they were.
pub proof fn lemma_reduce_keepdims(axes: Seq<usize>, shapes: Seq<Seq<usize>>, r: Result<Vec<usize>, GraphError>)
    requires shapes.len() > 0, shape_result_matches(r, infer_spec(OpSpec::ReduceSum { axes, keepdims: true }, shapes)),
    ensures
        r matches Ok(v) && v@.len() == shapes[0].len() && forall|i: int| 0 <= i < v@.len() ==>
            #[trigger] v@[i] == (if axes.contains(i as usize) { 1usize } else { shapes[0][i] }),
{
}

/// A fused linear layer has the matrix-product shape of its first two
/// inputs (no inner-dimension check) and needs three inputs.
pub proof fn lemma_fused_linear_dims(shapes: Seq<Seq<usize>>, r: Result<Vec<usize>, GraphError>)
    requires shapes.len() >= 3, shape_result_matches(r, infer_spec(OpSpec::FusedLinear, shapes)),
    ensures
        r is Ok <==> shapes[0].len() >= 2 && shapes[1].len() >= 2,
        r matches Ok(v) ==> {
            &&& v@.len() == shapes[0].len()
            &&& forall|i: int| 0 <= i < shapes[0].len() - 2 ==> #[trigger] v@[i] == shapes[0][i]
            &&& v@[v@.len() - 2] == shapes[0][shapes[0].len() - 2]
            &&& v@[v@.len() - 1] == shapes[1][shapes[1].len() - 1]
        },
{
}

/// All element-wise binary operations broadcast the same way.
pub proof fn lemma_binary_ops_agree(op: OpSpec, shapes: Seq<Seq<usize>>)
    requires op is Add || op is Mul || op is Sub || op is Div || op is FusedAddReLU, shapes.len() >= 2,
    ensures infer_spec(op, shapes) == infer_spec(OpSpec::Add, seq![shapes[0], shapes[1]]),
{
}

} // verus!
