use vstd::prelude::*;

verus! {

/// A binary operator of the source language: eleven arithmetic kinds and six
/// comparison kinds.
#[derive(Debug, Clone, Copy, PartialEq, Eq, Structural)]
pub enum BinOp {
    Add,
    Sub,
    Mul,
    Div,
    Mod,
    Power,
    BitAnd,
    BitOr,
    BitXor,
    ShiftLeft,
    ShiftRight,
    CmpEq,
    CmpNeq,
    CmpLt,
    CmpGt,
    CmpLeq,
    CmpGeq,
}

/// A unary operator of the source language.
#[derive(Debug, Clone, Copy, PartialEq, Eq, Structural)]
pub enum UnaryOp {
    Negate,
    Plus,
    NotBitwise,
    NotLogical,
}

/// The side of a combinator that a wire attaches to.
#[derive(Debug, Clone, Copy, PartialEq, Eq, Hash, Structural)]
pub enum ConnectType {
    In,
    Out,
}

/// `base` multiplied by itself `exp` times, each product wrapped to 32 bits.
pub open spec fn wrapping_power(base: i32, exp: nat) -> i32
    decreases exp,
{
    if exp == 0 {
        1i32
    } else {
        wrapping_power(base, (exp - 1) as nat).wrapping_mul(base)
    }
}

/// A quotient of magnitudes is no larger than the dividend's magnitude, and a
/// remainder is smaller than the divisor's.
proof fn lemma_quotient_bounds(x: int, d: int)
    requires
        d != 0,
    ensures
        x >= 0 && d > 0 ==> 0 <= x / d <= x && 0 <= x % d < d,
        x < 0 && d < 0 ==> 0 <= (x * -1) / (d * -1) <= -x && 0 <= (x * -1) % (d * -1) < -d,
        x < 0 && d > 0 ==> 0 <= (x * -1) / d <= -x && 0 <= (x * -1) % d < d,
        x >= 0 && d < 0 ==> 0 <= x / (d * -1) <= x && 0 <= x % (d * -1) < -d,
        x < 0 && d < -1 ==> (x * -1) / (d * -1) < -x,
{
    if x < 0 && d < -1 {
        vstd::arithmetic::div_mod::lemma_div_decreases(-x, -d);
    }
    if x >= 0 && d > 0 {
        lemma_div_bounds(x, d);
    } else if x < 0 && d < 0 {
        lemma_div_bounds(-x, -d);
    } else if x < 0 {
        lemma_div_bounds(-x, d);
    } else {
        lemma_div_bounds(x, -d);
    }
}

proof fn lemma_div_bounds(x: int, d: int)
    requires
        x >= 0,
        d > 0,
    ensures
        0 <= x / d <= x,
        0 <= x % d < d,
{
    vstd::arithmetic::div_mod::lemma_fundamental_div_mod(x, d);
    vstd::arithmetic::div_mod::lemma_mod_bound(x, d);
    vstd::arithmetic::div_mod::lemma_div_pos_is_pos(x, d);
    vstd::arithmetic::div_mod::lemma_div_nonincreasing(x, d);
}

impl BinOp {
    /// Whether the operator is one of the six comparisons.
    pub open spec fn spec_is_compare(&self) -> bool {
        *self is CmpEq || *self is CmpNeq || *self is CmpLt || *self is CmpGt || *self is CmpLeq
            || *self is CmpGeq
    }

    /// Binding strength, 1 binding tightest, after the precedence table of C.
    pub open spec fn spec_prec(&self) -> u32 {
        match *self {
            BinOp::Power => 1,
            BinOp::Mul | BinOp::Div | BinOp::Mod => 2,
            BinOp::Add | BinOp::Sub => 3,
            BinOp::ShiftLeft | BinOp::ShiftRight => 4,
            BinOp::CmpLt | BinOp::CmpGt | BinOp::CmpLeq | BinOp::CmpGeq => 5,
            BinOp::CmpEq | BinOp::CmpNeq => 6,
            BinOp::BitAnd => 7,
            BinOp::BitXor => 8,
            BinOp::BitOr => 9,
        }
    }

    /// The operator's name as a combinator spells it.
    pub open spec fn token(&self) -> Seq<char> {
        match *self {
            BinOp::Add => "+"@,
            BinOp::Sub => "-"@,
            BinOp::Mul => "*"@,
            BinOp::Div => "/"@,
            BinOp::Mod => "%"@,
            BinOp::Power => "^"@,
            BinOp::BitAnd => "AND"@,
            BinOp::BitOr => "OR"@,
            BinOp::BitXor => "XOR"@,
            BinOp::ShiftLeft => "<<"@,
            BinOp::ShiftRight => ">>"@,
            BinOp::CmpEq => "="@,
            BinOp::CmpNeq => "!="@,
            BinOp::CmpGt => ">"@,
            BinOp::CmpLt => "<"@,
            BinOp::CmpGeq => ">="@,
            BinOp::CmpLeq => "<="@,
        }
    }

    /// The value of `lhs op rhs` on 32-bit integers. Arithmetic wraps; a
    /// comparison gives 1 or 0; a shift uses the low five bits of `rhs`.
    /// There is no value for a division or remainder by zero, nor for a
    /// negative exponent.
    pub open spec fn spec_fold(&self, lhs: i32, rhs: i32) -> Option<i32> {
        match *self {
            BinOp::Add => Some(lhs.wrapping_add(rhs)),
            BinOp::Sub => Some(lhs.wrapping_sub(rhs)),
            BinOp::Mul => Some(lhs.wrapping_mul(rhs)),
            BinOp::Div => if rhs == 0 {
                None
            } else if lhs == i32::MIN && rhs == -1 {
                Some(i32::MIN)
            } else {
                lhs.checked_div(rhs)
            },
            BinOp::Mod => if rhs == 0 {
                None
            } else if lhs == i32::MIN && rhs == -1 {
                Some(0i32)
            } else {
                lhs.checked_rem(rhs)
            },
            BinOp::Power => if rhs < 0 {
                None
            } else {
                Some(wrapping_power(lhs, rhs as nat))
            },
            BinOp::BitAnd => Some(lhs & rhs),
            BinOp::BitOr => Some(lhs | rhs),
            BinOp::BitXor => Some(lhs ^ rhs),
            BinOp::ShiftLeft => Some(lhs.wrapping_shl((rhs & 31) as u32)),
            BinOp::ShiftRight => Some(lhs.wrapping_shr((rhs & 31) as u32)),
            BinOp::CmpEq => Some(if lhs == rhs { 1i32 } else { 0i32 }),
            BinOp::CmpNeq => Some(if lhs != rhs { 1i32 } else { 0i32 }),
            BinOp::CmpLt => Some(if lhs < rhs { 1i32 } else { 0i32 }),
            BinOp::CmpGt => Some(if lhs > rhs { 1i32 } else { 0i32 }),
            BinOp::CmpLeq => Some(if lhs <= rhs { 1i32 } else { 0i32 }),
            BinOp::CmpGeq => Some(if lhs >= rhs { 1i32 } else { 0i32 }),
        }
    }

    /// The comparison that holds of `(b, a)` exactly when this one holds of
    /// `(a, b)`; an arithmetic operator is left as it is.
    pub open spec fn spec_flip(&self) -> BinOp {
        match *self {
            BinOp::CmpLt => BinOp::CmpGt,
            BinOp::CmpGt => BinOp::CmpLt,
            BinOp::CmpLeq => BinOp::CmpGeq,
            BinOp::CmpGeq => BinOp::CmpLeq,
            other => other,
        }
    }

    /// The comparison that holds exactly when this one does not; an
    /// arithmetic operator is left as it is.
    pub open spec fn spec_invert(&self) -> BinOp {
        match *self {
            BinOp::CmpEq => BinOp::CmpNeq,
            BinOp::CmpNeq => BinOp::CmpEq,
            BinOp::CmpLt => BinOp::CmpGeq,
            BinOp::CmpGt => BinOp::CmpLeq,
            BinOp::CmpLeq => BinOp::CmpGt,
            BinOp::CmpGeq => BinOp::CmpLt,
            other => other,
        }
    }

    /// How tightly the operator binds: 1 binds tightest, 9 loosest.
    #[verifier::when_used_as_spec(spec_prec)]
    pub fn prec(&self) -> (r: u32)
        ensures
            r == self.spec_prec(),
            1 <= r <= 9,
    {
        match self {
            BinOp::Power => 1,
            BinOp::Mul | BinOp::Div | BinOp::Mod => 2,
            BinOp::Add | BinOp::Sub => 3,
            BinOp::ShiftLeft | BinOp::ShiftRight => 4,
            BinOp::CmpLt | BinOp::CmpGt | BinOp::CmpLeq | BinOp::CmpGeq => 5,
            BinOp::CmpEq | BinOp::CmpNeq => 6,
            BinOp::BitAnd => 7,
            BinOp::BitXor => 8,
            BinOp::BitOr => 9,
        }
    }

    /// The operator as a program writes it.
    pub fn to_str(&self) -> (r: &'static str)
        ensures
            r@ == self.token(),
    {
        match self {
            BinOp::Add => "+",
            BinOp::Sub => "-",
            BinOp::Mul => "*",
            BinOp::Div => "/",
            BinOp::Mod => "%",
            BinOp::Power => "^",
            BinOp::BitAnd => "AND",
            BinOp::BitOr => "OR",
            BinOp::BitXor => "XOR",
            BinOp::ShiftLeft => "<<",
            BinOp::ShiftRight => ">>",
            BinOp::CmpEq => "=",
            BinOp::CmpNeq => "!=",
            BinOp::CmpGt => ">",
            BinOp::CmpLt => "<",
            BinOp::CmpGeq => ">=",
            BinOp::CmpLeq => "<=",
        }
    }

    /// Folds the operator over two constants, `None` where the operation has
    /// no value.
    pub fn fold(&self, lhs: i32, rhs: i32) -> (r: Option<i32>)
        ensures
            r == self.spec_fold(lhs, rhs),
            r is None <==> ((*self is Div || *self is Mod) && rhs == 0) || (*self is Power && rhs
                < 0),
    {
        match self {
            BinOp::Add => Some(lhs.wrapping_add(rhs)),
            BinOp::Sub => Some(lhs.wrapping_sub(rhs)),
            BinOp::Mul => Some(lhs.wrapping_mul(rhs)),
            BinOp::Div => if rhs == 0 {
                None
            } else if lhs == i32::MIN && rhs == -1 {
                Some(i32::MIN)
            } else {
                proof {
                    lemma_quotient_bounds(lhs as int, rhs as int);
                }
                lhs.checked_div(rhs)
            },
            BinOp::Mod => if rhs == 0 {
                None
            } else if lhs == i32::MIN && rhs == -1 {
                Some(0)
            } else {
                proof {
                    lemma_quotient_bounds(lhs as int, rhs as int);
                }
                lhs.checked_rem(rhs)
            },
            BinOp::Power => if rhs < 0 {
                None
            } else {
                let mut acc: i32 = 1;
                let mut done: i32 = 0;
                while done < rhs
                    invariant
                        0 <= done <= rhs,
                        acc == wrapping_power(lhs, done as nat),
                    decreases rhs - done,
                {
                    acc = acc.wrapping_mul(lhs);
                    done = done + 1;
                }
                Some(acc)
            },
            BinOp::BitAnd => Some(lhs & rhs),
            BinOp::BitOr => Some(lhs | rhs),
            BinOp::BitXor => Some(lhs ^ rhs),
            BinOp::ShiftLeft => {
                assert(0 <= rhs & 31 < 32) by (bit_vector);
                Some(lhs.wrapping_shl((rhs & 31) as u32))
            },
            BinOp::ShiftRight => {
                assert(0 <= rhs & 31 < 32) by (bit_vector);
                Some(lhs.wrapping_shr((rhs & 31) as u32))
            },
            BinOp::CmpEq => Some(if lhs == rhs { 1 } else { 0 }),
            BinOp::CmpNeq => Some(if lhs != rhs { 1 } else { 0 }),
            BinOp::CmpLt => Some(if lhs < rhs { 1 } else { 0 }),
            BinOp::CmpGt => Some(if lhs > rhs { 1 } else { 0 }),
            BinOp::CmpLeq => Some(if lhs <= rhs { 1 } else { 0 }),
            BinOp::CmpGeq => Some(if lhs >= rhs { 1 } else { 0 }),
        }
    }

    /// Whether the operator compares its operands.
    #[verifier::when_used_as_spec(spec_is_compare)]
    pub fn is_compare(&self) -> (r: bool)
        ensures
            r == self.spec_is_compare(),
    {
        match self {
            BinOp::CmpLt | BinOp::CmpGt | BinOp::CmpLeq | BinOp::CmpGeq | BinOp::CmpEq
            | BinOp::CmpNeq => true,
            _ => false,
        }
    }

    /// Swaps the sides of a comparison.
    #[verifier::when_used_as_spec(spec_flip)]
    pub fn flip(&self) -> (r: BinOp)
        requires
            self.spec_is_compare(),
        ensures
            r == self.spec_flip(),
            r.spec_is_compare(),
            forall|a: i32, b: i32| r.spec_fold(b, a) == self.spec_fold(a, b),
    {
        match self {
            BinOp::CmpLt => BinOp::CmpGt,
            BinOp::CmpGt => BinOp::CmpLt,
            BinOp::CmpLeq => BinOp::CmpGeq,
            BinOp::CmpGeq => BinOp::CmpLeq,
            BinOp::CmpEq => BinOp::CmpEq,
            _ => BinOp::CmpNeq,
        }
    }

    /// Negates a comparison.
    #[verifier::when_used_as_spec(spec_invert)]
    pub fn invert(&self) -> (r: BinOp)
        requires
            self.spec_is_compare(),
        ensures
            r == self.spec_invert(),
            r.spec_is_compare(),
            forall|a: i32, b: i32|
                (r.spec_fold(a, b) == Some(1i32)) <==> (self.spec_fold(a, b) == Some(0i32)),
    {
        match self {
            BinOp::CmpEq => BinOp::CmpNeq,
            BinOp::CmpNeq => BinOp::CmpEq,
            BinOp::CmpLt => BinOp::CmpGeq,
            BinOp::CmpGt => BinOp::CmpLeq,
            BinOp::CmpLeq => BinOp::CmpGt,
            _ => BinOp::CmpLt,
        }
    }

    /// The value of a comparison of any number with itself.
    pub fn fold_same(&self) -> (r: i32)
        requires
            self.spec_is_compare(),
        ensures
            r == (if *self is CmpEq || *self is CmpLeq || *self is CmpGeq { 1i32 } else { 0i32 }),
            forall|x: i32| self.spec_fold(x, x) == Some(r),
    {
        match self {
            BinOp::CmpEq | BinOp::CmpLeq | BinOp::CmpGeq => 1,
            _ => 0,
        }
    }
}

} // verus!
