use vstd::prelude::*;
use vstd::string::*;

verus! {

/// The closed set of element types. A caller names one by a label and a bit
/// width: `s` and `u` for signed and unsigned integers of 8, 16, 32 or 64
/// bits, `f` for floats of 16, 32 or 64 bits, `bf` for the 16-bit brain
/// float, `bool` for the 8-bit boolean.
#[derive(Clone, Copy, Debug, PartialEq, Eq, Structural)]
pub enum DType {
    S8,
    S16,
    S32,
    S64,
    U8,
    U16,
    U32,
    U64,
    F16,
    F32,
    F64,
    BF16,
    Bool,
}

/// The numeric family of an element type: what decides how a value is cast.
#[derive(Clone, Copy, Debug, PartialEq, Eq, Structural)]
pub enum Family {
    Signed,
    Unsigned,
    Float,
    BrainFloat,
    Boolean,
}

/// The family that a label names, if any.
pub open spec fn family_of_label(label: Seq<char>) -> Option<Family> {
    if label == "s"@ {
        Some(Family::Signed)
    } else if label == "u"@ {
        Some(Family::Unsigned)
    } else if label == "f"@ {
        Some(Family::Float)
    } else if label == "bf"@ {
        Some(Family::BrainFloat)
    } else if label == "bool"@ {
        Some(Family::Boolean)
    } else {
        None
    }
}

/// The element type of a family at a bit width, if the set holds one.
pub open spec fn dtype_in_family(family: Family, bits: int) -> Option<DType> {
    match family {
        Family::Signed => if bits == 8 {
            Some(DType::S8)
        } else if bits == 16 {
            Some(DType::S16)
        } else if bits == 32 {
            Some(DType::S32)
        } else if bits == 64 {
            Some(DType::S64)
        } else {
            None
        },
        Family::Unsigned => if bits == 8 {
            Some(DType::U8)
        } else if bits == 16 {
            Some(DType::U16)
        } else if bits == 32 {
            Some(DType::U32)
        } else if bits == 64 {
            Some(DType::U64)
        } else {
            None
        },
        Family::Float => if bits == 16 {
            Some(DType::F16)
        } else if bits == 32 {
            Some(DType::F32)
        } else if bits == 64 {
            Some(DType::F64)
        } else {
            None
        },
        Family::BrainFloat => if bits == 16 {
            Some(DType::BF16)
        } else {
            None
        },
        Family::Boolean => if bits == 8 {
            Some(DType::Bool)
        } else {
            None
        },
    }
}

/// The element type that a label and a bit width name together.
pub open spec fn dtype_of_label(label: Seq<char>, bits: int) -> Option<DType> {
    match family_of_label(label) {
        Some(family) => dtype_in_family(family, bits),
        None => None,
    }
}

/// Whether two strings hold the same characters.
pub fn same_text(a: &str, b: &str) -> (same: bool)
    ensures
        same == (a@ == b@),
{
    let n: usize = a.unicode_len();
    if n != b.unicode_len() {
        return false;
    }
    let mut i: usize = 0;
    while i < n
        invariant
            n == a@.len(),
            n == b@.len(),
            i <= n,
            forall|j: int| 0 <= j < i ==> a@[j] == b@[j],
        decreases n - i,
    {
        if a.get_char(i) != b.get_char(i) {
            return false;
        }
        i += 1;
    }
    proof {
        assert(a@ =~= b@);
    }
    true
}

impl Family {
    /// Reads a family's label.
    pub fn from_label(label: &str) -> (family: Option<Family>)
        ensures
            family == family_of_label(label@),
    {
        if same_text(label, "s") {
            Some(Family::Signed)
        } else if same_text(label, "u") {
            Some(Family::Unsigned)
        } else if same_text(label, "f") {
            Some(Family::Float)
        } else if same_text(label, "bf") {
            Some(Family::BrainFloat)
        } else if same_text(label, "bool") {
            Some(Family::Boolean)
        } else {
            None
        }
    }

    /// The member of this family with the given bit width.
    pub fn with_bits(self, bits: usize) -> (dtype: Option<DType>)
        ensures
            dtype == dtype_in_family(self, bits as int),
    {
        match self {
            Family::Signed => if bits == 8 {
                Some(DType::S8)
            } else if bits == 16 {
                Some(DType::S16)
            } else if bits == 32 {
                Some(DType::S32)
            } else if bits == 64 {
                Some(DType::S64)
            } else {
                None
            },
            Family::Unsigned => if bits == 8 {
                Some(DType::U8)
            } else if bits == 16 {
                Some(DType::U16)
            } else if bits == 32 {
                Some(DType::U32)
            } else if bits == 64 {
                Some(DType::U64)
            } else {
                None
            },
            Family::Float => if bits == 16 {
                Some(DType::F16)
            } else if bits == 32 {
                Some(DType::F32)
            } else if bits == 64 {
                Some(DType::F64)
            } else {
                None
            },
            Family::BrainFloat => if bits == 16 {
                Some(DType::BF16)
            } else {
                None
            },
            Family::Boolean => if bits == 8 {
                Some(DType::Bool)
            } else {
                None
            },
        }
    }

    /// Whether values of this family are integers in two's complement or
    /// plain binary.
    pub open spec fn is_integer(self) -> bool {
        self == Family::Signed || self == Family::Unsigned
    }

    /// Whether a value of this family is read as an integer when it is cast:
    /// an integer as itself, a boolean as the byte that holds it, zero for
    /// false and one for true.
    pub open spec fn reads_as_integer(self) -> bool {
        self.is_integer() || self == Family::Boolean
    }
}

impl DType {
    /// Reads an element type from its label and bit width.
    pub fn from_label(label: &str, bits: usize) -> (dtype: Option<DType>)
        ensures
            dtype == dtype_of_label(label@, bits as int),
    {
        match Family::from_label(label) {
            Some(family) => family.with_bits(bits),
            None => None,
        }
    }

    /// The number of bytes that one element takes.
    pub open spec fn width(self) -> nat {
        match self {
            DType::S8 | DType::U8 | DType::Bool => 1,
            DType::S16 | DType::U16 | DType::F16 | DType::BF16 => 2,
            DType::S32 | DType::U32 | DType::F32 => 4,
            DType::S64 | DType::U64 | DType::F64 => 8,
        }
    }

    pub open spec fn family_spec(self) -> Family {
        match self {
            DType::S8 | DType::S16 | DType::S32 | DType::S64 => Family::Signed,
            DType::U8 | DType::U16 | DType::U32 | DType::U64 => Family::Unsigned,
            DType::F16 | DType::F32 | DType::F64 => Family::Float,
            DType::BF16 => Family::BrainFloat,
            DType::Bool => Family::Boolean,
        }
    }

    /// The number of bytes that one element takes.
    pub fn byte_width(self) -> (w: usize)
        ensures
            w == self.width(),
            1 <= w <= 8,
    {
        match self {
            DType::S8 | DType::U8 | DType::Bool => 1,
            DType::S16 | DType::U16 | DType::F16 | DType::BF16 => 2,
            DType::S32 | DType::U32 | DType::F32 => 4,
            DType::S64 | DType::U64 | DType::F64 => 8,
        }
    }

    /// The number of bits that one element takes.
    pub fn bits(self) -> (b: usize)
        ensures
            b == 8 * self.width(),
    {
        self.byte_width() * 8
    }

    /// The family that this element type belongs to.
    pub fn family(self) -> (family: Family)
        ensures
            family == self.family_spec(),
    {
        match self {
            DType::S8 | DType::S16 | DType::S32 | DType::S64 => Family::Signed,
            DType::U8 | DType::U16 | DType::U32 | DType::U64 => Family::Unsigned,
            DType::F16 | DType::F32 | DType::F64 => Family::Float,
            DType::BF16 => Family::BrainFloat,
            DType::Bool => Family::Boolean,
        }
    }

    /// The label by which a caller names this element type's family.
    pub fn label(self) -> (label: &'static str)
        ensures
            family_of_label(label@) == Some(self.family_spec()),
            dtype_of_label(label@, 8 * (self.width() as int)) == Some(self),
    {
        proof {
            reveal_strlit("s");
            reveal_strlit("u");
            reveal_strlit("f");
            reveal_strlit("bf");
            reveal_strlit("bool");
            assert("s"@[0] == 's' && "u"@[0] == 'u' && "f"@[0] == 'f');
            assert("s"@.len() == 1 && "bf"@.len() == 2 && "bool"@.len() == 4);
        }
        match self {
            DType::S8 | DType::S16 | DType::S32 | DType::S64 => "s",
            DType::U8 | DType::U16 | DType::U32 | DType::U64 => "u",
            DType::F16 | DType::F32 | DType::F64 => "f",
            DType::BF16 => "bf",
            DType::Bool => "bool",
        }
    }
}

/// Whether this crate casts a value of one element type to another: always to
/// its own type, and an integer or a boolean to any integer type. Every other
/// cast takes floating point arithmetic and is left to the caller.
pub open spec fn cast_allowed(from: DType, to: DType) -> bool {
    from == to || (from.family_spec().reads_as_integer() && to.family_spec().is_integer())
}

/// Whether this crate casts a value of one element type to another.
pub fn castable(from: DType, to: DType) -> (allowed: bool)
    ensures
        allowed == cast_allowed(from, to),
{
    let a = from.family();
    let b = to.family();
    from == to || ((a == Family::Signed || a == Family::Unsigned || a == Family::Boolean) && (b
        == Family::Signed || b == Family::Unsigned))
}

} // verus!
