//! The errors of a matrix product and their messages.
use crate::dtype::GgmlDType;
use vstd::prelude::*;
use vstd::string::*;

verus! {

/// Why a matrix product was refused.
#[derive(Debug, Clone, Copy, PartialEq, Eq, Structural)]
pub enum MatmulError {
    /// The shared dimension `k` is not a whole number of blocks.
    RowLength { dtype: GgmlDType, k: usize },
    /// The activations are not `m` rows of `k`.
    LhsLength { len: usize, m: usize, k: usize, n: usize },
}

/// The decimal digit of `d`.
pub open spec fn digit(d: nat) -> char {
    (('0' as u32) + d) as char
}

/// The decimal digits of `n`, without leading zeros.
pub open spec fn decimal(n: nat) -> Seq<char>
    decreases n,
{
    if n < 10 {
        seq![digit(n)]
    } else {
        decimal(n / 10).push(digit(n % 10))
    }
}

/// The name of a packed weight type.
pub open spec fn dtype_label(t: GgmlDType) -> Seq<char> {
    match t {
        GgmlDType::Q1_0_g128 => "Q1_0_g128"@,
        GgmlDType::Q2_0 => "Q2_0"@,
    }
}

/// The message of `e`.
pub open spec fn message(e: MatmulError) -> Seq<char> {
    match e {
        MatmulError::RowLength { dtype, k } => dtype_label(dtype) + " matmul requires k ("@ + decimal(
            k as nat,
        ) + ") to be a multiple of 128"@,
        MatmulError::LhsLength { len, m, k, n } => "unexpected lhs length "@ + decimal(len as nat)
            + " for ("@ + decimal(m as nat) + ","@ + decimal(k as nat) + ","@ + decimal(n as nat)
            + ")"@,
    }
}

/// The digit `d` as a string.
fn digit_str(d: usize) -> (r: &'static str)
    requires
        d < 10,
    ensures
        r@ == seq![digit(d as nat)],
{
    proof {
        reveal_strlit("0");
        reveal_strlit("1");
        reveal_strlit("2");
        reveal_strlit("3");
        reveal_strlit("4");
        reveal_strlit("5");
        reveal_strlit("6");
        reveal_strlit("7");
        reveal_strlit("8");
        reveal_strlit("9");
    }
    match d {
        0 => "0",
        1 => "1",
        2 => "2",
        3 => "3",
        4 => "4",
        5 => "5",
        6 => "6",
        7 => "7",
        8 => "8",
        _ => "9",
    }
}

/// Appends the decimal digits of `n` to `s`.
fn append_decimal(s: &mut String, n: usize)
    ensures
        final(s)@ == old(s)@ + decimal(n as nat),
    decreases n,
{
    if n >= 10 {
        append_decimal(s, n / 10);
    }
    s.append(digit_str(n % 10));
    assert(s@ =~= old(s)@ + decimal(n as nat));
}

impl MatmulError {
    /// The message for a person to read.
    pub fn message(&self) -> (r: String)
        ensures
            r@ == message(*self),
    {
        let mut s: String = String::new();
        match *self {
            MatmulError::RowLength { dtype, k } => {
                match dtype {
                    GgmlDType::Q1_0_g128 => s.append("Q1_0_g128"),
                    GgmlDType::Q2_0 => s.append("Q2_0"),
                }
                s.append(" matmul requires k (");
                append_decimal(&mut s, k);
                s.append(") to be a multiple of 128");
            },
            MatmulError::LhsLength { len, m, k, n } => {
                s.append("unexpected lhs length ");
                append_decimal(&mut s, len);
                s.append(" for (");
                append_decimal(&mut s, m);
                s.append(",");
                append_decimal(&mut s, k);
                s.append(",");
                append_decimal(&mut s, n);
                s.append(")");
            },
        }
        assert(s@ =~= message(*self));
        s
    }
}

} // verus!
