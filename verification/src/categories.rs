//! The closed set of 30 Unicode general categories, a fixed numeric
//! assignment for each, and a 30-bit membership set over them.

use vstd::prelude::*;

verus! {

use crate::Error;
use vstd::string::StringExecFns;

/// One of the 30 two-letter Unicode general-category abbreviations.
#[derive(Debug, Eq, PartialEq, Copy, Clone, Structural)]
pub enum UnicodeCategory {
    Pe,
    Pc,
    Cc,
    Sc,
    Pd,
    Nd,
    Me,
    Pf,
    Cf,
    Pi,
    Nl,
    Zl,
    Ll,
    Sm,
    Lm,
    Sk,
    Mn,
    Ps,
    Lo,
    No,
    Po,
    So,
    Zp,
    Co,
    Zs,
    Mc,
    Cs,
    Lt,
    Cn,
    Lu,
}

/// The stable numeric assignment of each category: its bit position.
pub open spec fn spec_category_index(c: UnicodeCategory) -> u32 {
    match c {
        UnicodeCategory::Pe => 0,
        UnicodeCategory::Pc => 1,
        UnicodeCategory::Cc => 2,
        UnicodeCategory::Sc => 3,
        UnicodeCategory::Pd => 4,
        UnicodeCategory::Nd => 5,
        UnicodeCategory::Me => 6,
        UnicodeCategory::Pf => 7,
        UnicodeCategory::Cf => 8,
        UnicodeCategory::Pi => 9,
        UnicodeCategory::Nl => 10,
        UnicodeCategory::Zl => 11,
        UnicodeCategory::Ll => 12,
        UnicodeCategory::Sm => 13,
        UnicodeCategory::Lm => 14,
        UnicodeCategory::Sk => 15,
        UnicodeCategory::Mn => 16,
        UnicodeCategory::Ps => 17,
        UnicodeCategory::Lo => 18,
        UnicodeCategory::No => 19,
        UnicodeCategory::Po => 20,
        UnicodeCategory::So => 21,
        UnicodeCategory::Zp => 22,
        UnicodeCategory::Co => 23,
        UnicodeCategory::Zs => 24,
        UnicodeCategory::Mc => 25,
        UnicodeCategory::Cs => 26,
        UnicodeCategory::Lt => 27,
        UnicodeCategory::Cn => 28,
        UnicodeCategory::Lu => 29,
    }
}

/// The category at a given bit position; positions outside `[0, 30)` map
/// arbitrarily to the last category.
pub open spec fn spec_category_from_index(i: int) -> UnicodeCategory {
    if i == 0 {
        UnicodeCategory::Pe
    } else if i == 1 {
        UnicodeCategory::Pc
    } else if i == 2 {
        UnicodeCategory::Cc
    } else if i == 3 {
        UnicodeCategory::Sc
    } else if i == 4 {
        UnicodeCategory::Pd
    } else if i == 5 {
        UnicodeCategory::Nd
    } else if i == 6 {
        UnicodeCategory::Me
    } else if i == 7 {
        UnicodeCategory::Pf
    } else if i == 8 {
        UnicodeCategory::Cf
    } else if i == 9 {
        UnicodeCategory::Pi
    } else if i == 10 {
        UnicodeCategory::Nl
    } else if i == 11 {
        UnicodeCategory::Zl
    } else if i == 12 {
        UnicodeCategory::Ll
    } else if i == 13 {
        UnicodeCategory::Sm
    } else if i == 14 {
        UnicodeCategory::Lm
    } else if i == 15 {
        UnicodeCategory::Sk
    } else if i == 16 {
        UnicodeCategory::Mn
    } else if i == 17 {
        UnicodeCategory::Ps
    } else if i == 18 {
        UnicodeCategory::Lo
    } else if i == 19 {
        UnicodeCategory::No
    } else if i == 20 {
        UnicodeCategory::Po
    } else if i == 21 {
        UnicodeCategory::So
    } else if i == 22 {
        UnicodeCategory::Zp
    } else if i == 23 {
        UnicodeCategory::Co
    } else if i == 24 {
        UnicodeCategory::Zs
    } else if i == 25 {
        UnicodeCategory::Mc
    } else if i == 26 {
        UnicodeCategory::Cs
    } else if i == 27 {
        UnicodeCategory::Lt
    } else if i == 28 {
        UnicodeCategory::Cn
    } else {
        UnicodeCategory::Lu
    }
}

/// The two characters of a category's abbreviation.
pub open spec fn spec_category_name(c: UnicodeCategory) -> Seq<char> {
    match c {
        UnicodeCategory::Pe => seq!['P', 'e'],
        UnicodeCategory::Pc => seq!['P', 'c'],
        UnicodeCategory::Cc => seq!['C', 'c'],
        UnicodeCategory::Sc => seq!['S', 'c'],
        UnicodeCategory::Pd => seq!['P', 'd'],
        UnicodeCategory::Nd => seq!['N', 'd'],
        UnicodeCategory::Me => seq!['M', 'e'],
        UnicodeCategory::Pf => seq!['P', 'f'],
        UnicodeCategory::Cf => seq!['C', 'f'],
        UnicodeCategory::Pi => seq!['P', 'i'],
        UnicodeCategory::Nl => seq!['N', 'l'],
        UnicodeCategory::Zl => seq!['Z', 'l'],
        UnicodeCategory::Ll => seq!['L', 'l'],
        UnicodeCategory::Sm => seq!['S', 'm'],
        UnicodeCategory::Lm => seq!['L', 'm'],
        UnicodeCategory::Sk => seq!['S', 'k'],
        UnicodeCategory::Mn => seq!['M', 'n'],
        UnicodeCategory::Ps => seq!['P', 's'],
        UnicodeCategory::Lo => seq!['L', 'o'],
        UnicodeCategory::No => seq!['N', 'o'],
        UnicodeCategory::Po => seq!['P', 'o'],
        UnicodeCategory::So => seq!['S', 'o'],
        UnicodeCategory::Zp => seq!['Z', 'p'],
        UnicodeCategory::Co => seq!['C', 'o'],
        UnicodeCategory::Zs => seq!['Z', 's'],
        UnicodeCategory::Mc => seq!['M', 'c'],
        UnicodeCategory::Cs => seq!['C', 's'],
        UnicodeCategory::Lt => seq!['L', 't'],
        UnicodeCategory::Cn => seq!['C', 'n'],
        UnicodeCategory::Lu => seq!['L', 'u'],
    }
}

/// The category named by a two-character sequence, if any.
pub open spec fn spec_category_of(s: Seq<char>) -> Option<UnicodeCategory> {
    if s.len() == 2 && exists|c: UnicodeCategory| spec_category_name(c) == s {
        Some(choose|c: UnicodeCategory| spec_category_name(c) == s)
    } else {
        None
    }
}

/// Bit positions determine categories.
pub proof fn lemma_category_index_injective(c: UnicodeCategory, d: UnicodeCategory)
    requires
        spec_category_index(c) == spec_category_index(d),
    ensures
        c == d,
{
}

/// The bit position and the category at that position are inverses.
pub proof fn lemma_category_index_roundtrip()
    ensures
        forall|c: UnicodeCategory|
            spec_category_from_index(#[trigger] spec_category_index(c) as int) == c,
        forall|i: int|
            0 <= i < 30 ==> spec_category_index(#[trigger] spec_category_from_index(i)) == i,
{
}

/// Category names determine categories.
pub proof fn lemma_category_name_injective(c: UnicodeCategory, d: UnicodeCategory)
    requires
        spec_category_name(c) == spec_category_name(d),
    ensures
        c == d,
{
    assert(spec_category_name(c)[0] == spec_category_name(d)[0]);
    assert(spec_category_name(c)[1] == spec_category_name(d)[1]);
}

/// Parsing a category's own name gives that category back.
pub proof fn lemma_category_of_name(c: UnicodeCategory)
    ensures
        spec_category_of(spec_category_name(c)) == Some(c),
{
    assert(spec_category_name(c).len() == 2);
    let d = choose|d: UnicodeCategory| spec_category_name(d) == spec_category_name(c);
    lemma_category_name_injective(c, d);
}

/// The bit position of a category, as executable code.
pub fn category_index(c: UnicodeCategory) -> (r: u32)
    ensures
        r == spec_category_index(c),
{
    match c {
        UnicodeCategory::Pe => 0,
        UnicodeCategory::Pc => 1,
        UnicodeCategory::Cc => 2,
        UnicodeCategory::Sc => 3,
        UnicodeCategory::Pd => 4,
        UnicodeCategory::Nd => 5,
        UnicodeCategory::Me => 6,
        UnicodeCategory::Pf => 7,
        UnicodeCategory::Cf => 8,
        UnicodeCategory::Pi => 9,
        UnicodeCategory::Nl => 10,
        UnicodeCategory::Zl => 11,
        UnicodeCategory::Ll => 12,
        UnicodeCategory::Sm => 13,
        UnicodeCategory::Lm => 14,
        UnicodeCategory::Sk => 15,
        UnicodeCategory::Mn => 16,
        UnicodeCategory::Ps => 17,
        UnicodeCategory::Lo => 18,
        UnicodeCategory::No => 19,
        UnicodeCategory::Po => 20,
        UnicodeCategory::So => 21,
        UnicodeCategory::Zp => 22,
        UnicodeCategory::Co => 23,
        UnicodeCategory::Zs => 24,
        UnicodeCategory::Mc => 25,
        UnicodeCategory::Cs => 26,
        UnicodeCategory::Lt => 27,
        UnicodeCategory::Cn => 28,
        UnicodeCategory::Lu => 29,
    }
}

/// The category at a bit position, as executable code.
pub fn category_from_index(i: u32) -> (r: UnicodeCategory)
    requires
        i < 30,
    ensures
        r == spec_category_from_index(i as int),
{
    match i {
        0 => UnicodeCategory::Pe,
        1 => UnicodeCategory::Pc,
        2 => UnicodeCategory::Cc,
        3 => UnicodeCategory::Sc,
        4 => UnicodeCategory::Pd,
        5 => UnicodeCategory::Nd,
        6 => UnicodeCategory::Me,
        7 => UnicodeCategory::Pf,
        8 => UnicodeCategory::Cf,
        9 => UnicodeCategory::Pi,
        10 => UnicodeCategory::Nl,
        11 => UnicodeCategory::Zl,
        12 => UnicodeCategory::Ll,
        13 => UnicodeCategory::Sm,
        14 => UnicodeCategory::Lm,
        15 => UnicodeCategory::Sk,
        16 => UnicodeCategory::Mn,
        17 => UnicodeCategory::Ps,
        18 => UnicodeCategory::Lo,
        19 => UnicodeCategory::No,
        20 => UnicodeCategory::Po,
        21 => UnicodeCategory::So,
        22 => UnicodeCategory::Zp,
        23 => UnicodeCategory::Co,
        24 => UnicodeCategory::Zs,
        25 => UnicodeCategory::Mc,
        26 => UnicodeCategory::Cs,
        27 => UnicodeCategory::Lt,
        28 => UnicodeCategory::Cn,
        _ => UnicodeCategory::Lu,
    }
}

impl UnicodeCategory {
    /// The two-letter abbreviation of this category.
    pub fn as_str(self) -> (r: &'static str)
        ensures
            r@ == spec_category_name(self),
    {
        match self {
            UnicodeCategory::Pe => {
                proof {
                    reveal_strlit("Pe");
                }
                "Pe"
            },
            UnicodeCategory::Pc => {
                proof {
                    reveal_strlit("Pc");
                }
                "Pc"
            },
            UnicodeCategory::Cc => {
                proof {
                    reveal_strlit("Cc");
                }
                "Cc"
            },
            UnicodeCategory::Sc => {
                proof {
                    reveal_strlit("Sc");
                }
                "Sc"
            },
            UnicodeCategory::Pd => {
                proof {
                    reveal_strlit("Pd");
                }
                "Pd"
            },
            UnicodeCategory::Nd => {
                proof {
                    reveal_strlit("Nd");
                }
                "Nd"
            },
            UnicodeCategory::Me => {
                proof {
                    reveal_strlit("Me");
                }
                "Me"
            },
            UnicodeCategory::Pf => {
                proof {
                    reveal_strlit("Pf");
                }
                "Pf"
            },
            UnicodeCategory::Cf => {
                proof {
                    reveal_strlit("Cf");
                }
                "Cf"
            },
            UnicodeCategory::Pi => {
                proof {
                    reveal_strlit("Pi");
                }
                "Pi"
            },
            UnicodeCategory::Nl => {
                proof {
                    reveal_strlit("Nl");
                }
                "Nl"
            },
            UnicodeCategory::Zl => {
                proof {
                    reveal_strlit("Zl");
                }
                "Zl"
            },
            UnicodeCategory::Ll => {
                proof {
                    reveal_strlit("Ll");
                }
                "Ll"
            },
            UnicodeCategory::Sm => {
                proof {
                    reveal_strlit("Sm");
                }
                "Sm"
            },
            UnicodeCategory::Lm => {
                proof {
                    reveal_strlit("Lm");
                }
                "Lm"
            },
            UnicodeCategory::Sk => {
                proof {
                    reveal_strlit("Sk");
                }
                "Sk"
            },
            UnicodeCategory::Mn => {
                proof {
                    reveal_strlit("Mn");
                }
                "Mn"
            },
            UnicodeCategory::Ps => {
                proof {
                    reveal_strlit("Ps");
                }
                "Ps"
            },
            UnicodeCategory::Lo => {
                proof {
                    reveal_strlit("Lo");
                }
                "Lo"
            },
            UnicodeCategory::No => {
                proof {
                    reveal_strlit("No");
                }
                "No"
            },
            UnicodeCategory::Po => {
                proof {
                    reveal_strlit("Po");
                }
                "Po"
            },
            UnicodeCategory::So => {
                proof {
                    reveal_strlit("So");
                }
                "So"
            },
            UnicodeCategory::Zp => {
                proof {
                    reveal_strlit("Zp");
                }
                "Zp"
            },
            UnicodeCategory::Co => {
                proof {
                    reveal_strlit("Co");
                }
                "Co"
            },
            UnicodeCategory::Zs => {
                proof {
                    reveal_strlit("Zs");
                }
                "Zs"
            },
            UnicodeCategory::Mc => {
                proof {
                    reveal_strlit("Mc");
                }
                "Mc"
            },
            UnicodeCategory::Cs => {
                proof {
                    reveal_strlit("Cs");
                }
                "Cs"
            },
            UnicodeCategory::Lt => {
                proof {
                    reveal_strlit("Lt");
                }
                "Lt"
            },
            UnicodeCategory::Cn => {
                proof {
                    reveal_strlit("Cn");
                }
                "Cn"
            },
            UnicodeCategory::Lu => {
                proof {
                    reveal_strlit("Lu");
                }
                "Lu"
            },
        }
    }

    /// Parse a two-letter category abbreviation; any other string is `None`.
    pub fn from_name(name: &str) -> (r: Option<UnicodeCategory>)
        ensures
            r == spec_category_of(name@),
    {
        if name.unicode_len() != 2 {
            assert forall|c: UnicodeCategory| spec_category_name(c) != name@ by {
                assert(spec_category_name(c).len() == 2);
            }
            return None;
        }
        let c0 = name.get_char(0);
        let c1 = name.get_char(1);
        let r = match (c0, c1) {
            ('P', 'e') => Some(UnicodeCategory::Pe),
            ('P', 'c') => Some(UnicodeCategory::Pc),
            ('C', 'c') => Some(UnicodeCategory::Cc),
            ('S', 'c') => Some(UnicodeCategory::Sc),
            ('P', 'd') => Some(UnicodeCategory::Pd),
            ('N', 'd') => Some(UnicodeCategory::Nd),
            ('M', 'e') => Some(UnicodeCategory::Me),
            ('P', 'f') => Some(UnicodeCategory::Pf),
            ('C', 'f') => Some(UnicodeCategory::Cf),
            ('P', 'i') => Some(UnicodeCategory::Pi),
            ('N', 'l') => Some(UnicodeCategory::Nl),
            ('Z', 'l') => Some(UnicodeCategory::Zl),
            ('L', 'l') => Some(UnicodeCategory::Ll),
            ('S', 'm') => Some(UnicodeCategory::Sm),
            ('L', 'm') => Some(UnicodeCategory::Lm),
            ('S', 'k') => Some(UnicodeCategory::Sk),
            ('M', 'n') => Some(UnicodeCategory::Mn),
            ('P', 's') => Some(UnicodeCategory::Ps),
            ('L', 'o') => Some(UnicodeCategory::Lo),
            ('N', 'o') => Some(UnicodeCategory::No),
            ('P', 'o') => Some(UnicodeCategory::Po),
            ('S', 'o') => Some(UnicodeCategory::So),
            ('Z', 'p') => Some(UnicodeCategory::Zp),
            ('C', 'o') => Some(UnicodeCategory::Co),
            ('Z', 's') => Some(UnicodeCategory::Zs),
            ('M', 'c') => Some(UnicodeCategory::Mc),
            ('C', 's') => Some(UnicodeCategory::Cs),
            ('L', 't') => Some(UnicodeCategory::Lt),
            ('C', 'n') => Some(UnicodeCategory::Cn),
            ('L', 'u') => Some(UnicodeCategory::Lu),
            _ => None,
        };
        proof {
            match r {
                Some(c) => {
                    assert(spec_category_name(c) =~= name@);
                    lemma_category_of_name(c);
                },
                None => {
                    assert forall|c: UnicodeCategory| spec_category_name(c) != name@ by {
                        if spec_category_name(c) == name@ {
                            assert(c0 == spec_category_name(c)[0]);
                            assert(c1 == spec_category_name(c)[1]);
                        }
                    }
                },
            }
        }
        r
    }
}

/// Each bit of a shifted-out zero word is zero.
proof fn lemma_bv_zero()
    by (bit_vector)
    ensures
        forall|j: u32| #[trigger] ((0u32 >> j) & 1u32) == 0u32,
{
}

/// A bit of a single-bit word is set exactly at that position.
proof fn lemma_bv_one_bit()
    by (bit_vector)
    ensures
        forall|i: u32, j: u32|
            i < 32 && j < 32 ==> (#[trigger] (((1u32 << i) >> j) & 1u32) == 1u32 <==> i == j),
{
}

/// A bit of a bitwise combination is the same combination of the bits.
proof fn lemma_bv_pointwise()
    by (bit_vector)
    ensures
        forall|a: u32, b: u32, j: u32|
            #[trigger] (((a | b) >> j) & 1u32) == 1u32 <==> ((a >> j) & 1u32) == 1u32 || ((b
                >> j) & 1u32) == 1u32,
        forall|a: u32, b: u32, j: u32|
            #[trigger] (((a & b) >> j) & 1u32) == 1u32 <==> ((a >> j) & 1u32) == 1u32 && ((b
                >> j) & 1u32) == 1u32,
        forall|a: u32, b: u32, j: u32|
            #[trigger] (((a ^ b) >> j) & 1u32) == 1u32 <==> (((a >> j) & 1u32) == 1u32) != (((
            b >> j) & 1u32) == 1u32),
        forall|a: u32, b: u32, j: u32|
            #[trigger] (((a & !b) >> j) & 1u32) == 1u32 <==> ((a >> j) & 1u32) == 1u32 && ((b
                >> j) & 1u32) != 1u32,
{
}

/// A fixed-capacity membership set over the 30 Unicode general categories:
/// bit `i` is set exactly when the category with numeric assignment `i` is
/// a member. Equality is by raw bit pattern.
#[derive(Debug, Copy, Clone, PartialEq, Eq, Structural, Hash)]
pub struct CategoryBitMap {
    bits: u32,
}

impl CategoryBitMap {
    /// Category `c` is a member of this set.
    pub closed spec fn has(self, c: UnicodeCategory) -> bool {
        (self.bits >> spec_category_index(c)) & 1u32 == 1u32
    }

    /// The members in numeric-assignment order, from bit `k` upward.
    pub closed spec fn members_from(self, k: int) -> Seq<UnicodeCategory>
        decreases 30 - k,
    {
        if k < 0 || k >= 30 {
            Seq::empty()
        } else if self.has(spec_category_from_index(k)) {
            seq![spec_category_from_index(k)] + self.members_from(k + 1)
        } else {
            self.members_from(k + 1)
        }
    }

    /// The members in numeric-assignment order.
    pub open spec fn members(self) -> Seq<UnicodeCategory> {
        self.members_from(0)
    }

    /// Category `c` is a member, as executable code.
    pub fn contains(self, c: UnicodeCategory) -> (r: bool)
        ensures
            r == self.has(c),
    {
        (self.bits >> category_index(c)) & 1 == 1
    }

    /// The set of all 30 categories.
    pub fn full() -> (r: Self)
        ensures
            forall|c: UnicodeCategory| r.has(c),
    {
        let r = CategoryBitMap { bits: 0x3FFF_FFFF };
        proof {
            assert(forall|j: u32| j < 30 ==> ((0x3FFFFFFFu32 >> j) & 1u32) == 1u32)
                by (bit_vector);
            assert forall|c: UnicodeCategory| r.has(c) by {
                assert(spec_category_index(c) < 30);
            }
        }
        r
    }

    /// The empty set.
    pub fn new() -> (r: Self)
        ensures
            forall|c: UnicodeCategory| !r.has(c),
    {
        let r = CategoryBitMap { bits: 0 };
        proof {
            lemma_bv_zero();
        }
        r
    }

    /// A set from a raw 30-bit pattern.
    pub fn from_value(value: u32) -> (r: Self)
        requires
            value < 0x40000000,
        ensures
            forall|c: UnicodeCategory|
                r.has(c) <==> (value >> spec_category_index(c)) & 1u32 == 1u32,
    {
        CategoryBitMap { bits: value }
    }

    /// Add one category.
    pub fn add_category(&mut self, category: UnicodeCategory)
        ensures
            forall|c: UnicodeCategory|
                final(self).has(c) <==> old(self).has(c) || c == category,
    {
        let i = category_index(category);
        self.bits = self.bits | (1u32 << i);
        proof {
            lemma_bv_one_bit();
            lemma_bv_pointwise();
            assert forall|c: UnicodeCategory|
                final(self).has(c) <==> old(self).has(c) || c == category by {
                let j = spec_category_index(c);
                assert(j < 32 && i < 32);
                if j == i {
                    lemma_category_index_injective(c, category);
                }
            }
        }
    }

    /// Write one bit by numeric position; the result is the bit's old value.
    pub fn set(&mut self, index: usize, value: bool) -> (r: bool)
        requires
            index < 30,
        ensures
            r == old(self).has(spec_category_from_index(index as int)),
            forall|c: UnicodeCategory|
                final(self).has(c) <==> if spec_category_index(c) == index {
                    value
                } else {
                    old(self).has(c)
                },
    {
        let i = index as u32;
        let r = (self.bits >> i) & 1 == 1;
        if value {
            self.bits = self.bits | (1u32 << i);
        } else {
            self.bits = self.bits & !(1u32 << i);
        }
        proof {
            lemma_bv_one_bit();
            lemma_bv_pointwise();
            lemma_category_index_roundtrip();
            assert forall|c: UnicodeCategory|
                final(self).has(c) <==> if spec_category_index(c) == index {
                    value
                } else {
                    old(self).has(c)
                } by {
                let j = spec_category_index(c);
                assert(j < 32 && i < 32);
            }
        }
        r
    }

    /// Everything in this set or in `rhs`.
    pub fn union(self, rhs: Self) -> (r: Self)
        ensures
            forall|c: UnicodeCategory| r.has(c) <==> self.has(c) || rhs.has(c),
    {
        let r = CategoryBitMap { bits: self.bits | rhs.bits };
        proof {
            lemma_bv_pointwise();
            assert forall|c: UnicodeCategory| r.has(c) <==> self.has(c) || rhs.has(c) by {
                let j = spec_category_index(c);
                assert(((self.bits | rhs.bits) >> j) & 1u32 == 1u32 <==> ((self.bits >> j)
                    & 1u32) == 1u32 || ((rhs.bits >> j) & 1u32) == 1u32);
            }
        }
        r
    }

    /// Everything in both this set and `rhs`.
    pub fn intersection(self, rhs: Self) -> (r: Self)
        ensures
            forall|c: UnicodeCategory| r.has(c) <==> self.has(c) && rhs.has(c),
    {
        let r = CategoryBitMap { bits: self.bits & rhs.bits };
        proof {
            lemma_bv_pointwise();
            assert forall|c: UnicodeCategory| r.has(c) <==> self.has(c) && rhs.has(c) by {
                let j = spec_category_index(c);
                assert(((self.bits & rhs.bits) >> j) & 1u32 == 1u32 <==> ((self.bits >> j)
                    & 1u32) == 1u32 && ((rhs.bits >> j) & 1u32) == 1u32);
            }
        }
        r
    }

    /// Everything in exactly one of this set and `rhs`.
    pub fn symmetric_difference(self, rhs: Self) -> (r: Self)
        ensures
            forall|c: UnicodeCategory| r.has(c) <==> (self.has(c) != rhs.has(c)),
    {
        let r = CategoryBitMap { bits: self.bits ^ rhs.bits };
        proof {
            lemma_bv_pointwise();
            assert forall|c: UnicodeCategory| r.has(c) <==> (self.has(c) != rhs.has(c)) by {
                let j = spec_category_index(c);
                assert(((self.bits ^ rhs.bits) >> j) & 1u32 == 1u32 <==> (((self.bits >> j)
                    & 1u32) == 1u32) != (((rhs.bits >> j) & 1u32) == 1u32));
            }
        }
        r
    }

    /// Everything in this set that is not in `rhs`.
    pub fn difference(self, rhs: Self) -> (r: Self)
        ensures
            forall|c: UnicodeCategory| r.has(c) <==> self.has(c) && !rhs.has(c),
    {
        let r = CategoryBitMap { bits: self.bits & !rhs.bits };
        proof {
            lemma_bv_pointwise();
            assert forall|c: UnicodeCategory| r.has(c) <==> self.has(c) && !rhs.has(c) by {
                let j = spec_category_index(c);
                assert(((self.bits & !rhs.bits) >> j) & 1u32 == 1u32 <==> ((self.bits >> j)
                    & 1u32) == 1u32 && ((rhs.bits >> j) & 1u32) != 1u32);
            }
        }
        r
    }

    /// The numeric position of the lowest member, if the set is non-empty.
    pub fn first_index(self) -> (r: Option<usize>)
        ensures
            match r {
                Some(i) => i < 30 && self.has(spec_category_from_index(i as int)) && forall|
                    c: UnicodeCategory,
                |
                    self.has(c) ==> spec_category_index(c) >= i,
                None => forall|c: UnicodeCategory| !self.has(c),
            },
    {
        let mut k: u32 = 0;
        while k < 30
            invariant
                k <= 30,
                forall|c: UnicodeCategory|
                    spec_category_index(c) < k ==> !self.has(c),
            decreases 30 - k,
        {
            if (self.bits >> k) & 1 == 1 {
                proof {
                    lemma_category_index_roundtrip();
                }
                return Some(k as usize);
            }
            proof {
                lemma_category_index_roundtrip();
                assert forall|c: UnicodeCategory|
                    spec_category_index(c) < k + 1 implies !self.has(c) by {
                    if spec_category_index(c) == k {
                        assert(spec_category_from_index(k as int) == c);
                    }
                }
            }
            k += 1;
        }
        None
    }

    /// The set has no members.
    pub fn is_empty(self) -> (r: bool)
        ensures
            r <==> forall|c: UnicodeCategory| !self.has(c),
    {
        match self.first_index() {
            Option::None => true,
            Option::Some(_) => false,
        }
    }

    /// Every category is a member.
    pub fn is_full(self) -> (r: bool)
        ensures
            r <==> forall|c: UnicodeCategory| self.has(c),
    {
        let mut k: u32 = 0;
        while k < 30
            invariant
                k <= 30,
                forall|c: UnicodeCategory|
                    spec_category_index(c) < k ==> self.has(c),
            decreases 30 - k,
        {
            if (self.bits >> k) & 1 != 1 {
                proof {
                    lemma_category_index_roundtrip();
                    assert(!self.has(spec_category_from_index(k as int)));
                }
                return false;
            }
            proof {
                lemma_category_index_roundtrip();
                assert forall|c: UnicodeCategory|
                    spec_category_index(c) < k + 1 implies self.has(c) by {
                    if spec_category_index(c) == k {
                        assert(spec_category_from_index(k as int) == c);
                    }
                }
            }
            k += 1;
        }
        true
    }

    /// The members in numeric-assignment order.
    pub fn categories_vec(self) -> (r: Vec<UnicodeCategory>)
        ensures
            r@ == self.members(),
    {
        let mut out: Vec<UnicodeCategory> = Vec::new();
        let mut k: u32 = 0;
        while k < 30
            invariant
                k <= 30,
                out@ + self.members_from(k as int) == self.members(),
            decreases 30 - k,
        {
            let c = category_from_index(k);
            proof {
                lemma_category_index_roundtrip();
            }
            if (self.bits >> k) & 1 == 1 {
                assert(self.has(c));
                let ghost prev = out@;
                out.push(c);
                proof {
                    assert(self.members_from(k as int) == seq![c] + self.members_from(k + 1));
                    assert(out@ + self.members_from(k + 1) =~= prev + self.members_from(k as int));
                }
            } else {
                assert(!self.has(c));
                assert(self.members_from(k as int) == self.members_from(k + 1));
            }
            k += 1;
        }
        assert(out@ =~= self.members());
        out
    }

    /// Extend the set by one token: a two-letter category code adds that
    /// category, a one-letter major class adds all of its subclasses, and
    /// any other token fails without changing the set.
    pub fn try_extend<'a>(&mut self, value: &'a str) -> (r: Result<(), Error<'a>>)
        ensures
            match r {
                Result::Ok(_) => spec_token_valid(value@) && forall|c: UnicodeCategory|
                    final(self).has(c) <==> old(self).has(c) || spec_token_adds(value@, c),
                Result::Err(e) => !spec_token_valid(value@) && e == Error::InvalidCategory(value)
                    && *final(self) == *old(self),
            },
    {
        let len = value.unicode_len();
        if len == 1 {
            let ch = value.get_char(0);
            let is_major = match ch {
                'L' | 'M' | 'N' | 'P' | 'S' | 'Z' | 'C' => true,
                _ => false,
            };
            if is_major {
                let ms = major_class_set(ch);
                *self = self.union(ms);
                proof {
                    assert(value@ =~= seq![ch]);
                }
                Ok(())
            } else {
                proof {
                    assert forall|c: UnicodeCategory| spec_category_name(c) != value@ by {
                        assert(spec_category_name(c).len() == 2);
                    }
                }
                Err(Error::InvalidCategory(value))
            }
        } else {
            match UnicodeCategory::from_name(value) {
                Option::Some(cat) => {
                    self.add_category(cat);
                    proof {
                        assert(spec_category_of(value@) == Some(cat));
                        assert forall|c: UnicodeCategory|
                            final(self).has(c) <==> old(self).has(c) || spec_token_adds(
                                value@,
                                c,
                            ) by {
                            if spec_token_adds(value@, c) {
                                assert(Some(c) == Some(cat));
                            }
                        }
                    }
                    Ok(())
                },
                Option::None => {
                    proof {
                        assert(len != 1);
                    }
                    Err(Error::InvalidCategory(value))
                },
            }
        }
    }

    /// The members' two-letter abbreviations in numeric-assignment order.
    pub fn to_vec_str(self) -> (r: Vec<&'static str>)
        ensures
            r@.len() == self.members().len(),
            forall|i: int|
                0 <= i < r@.len() ==> (#[trigger] r@[i])@ == spec_category_name(
                    self.members()[i],
                ),
    {
        let cats = self.categories_vec();
        let n = cats.len();
        let mut out: Vec<&'static str> = Vec::new();
        let mut i: usize = 0;
        while i < n
            invariant
                0 <= i <= n == cats@.len(),
                cats@ == self.members(),
                out@.len() == i,
                forall|p: int|
                    0 <= p < i ==> (#[trigger] out@[p])@ == spec_category_name(cats@[p]),
            decreases n - i,
        {
            out.push(cats[i].as_str());
            i += 1;
        }
        out
    }

    /// The members' abbreviations joined with a comma and a space, in
    /// numeric-assignment order.
    pub fn display_string(self) -> (r: String)
        ensures
            r@ == spec_joined_names(self.members()),
    {
        let cats = self.categories_vec();
        let n = cats.len();
        let mut out = String::new();
        let mut i: usize = 0;
        while i < n
            invariant
                0 <= i <= n == cats@.len(),
                cats@ == self.members(),
                out@ == spec_joined_names(cats@.take(i as int)),
            decreases n - i,
        {
            if i > 0 {
                proof {
                    reveal_strlit(", ");
                }
                out.append(", ");
            }
            out.append(cats[i].as_str());
            proof {
                let t1 = cats@.take(i + 1);
                assert(t1.len() == i + 1);
                assert(t1.last() == cats@[i as int]);
                if i > 0 {
                    assert(t1.drop_last() =~= cats@.take(i as int));
                    assert(", "@ =~= seq![',', ' ']);
                    assert(out@ =~= spec_joined_names(t1));
                } else {
                    assert(t1 =~= seq![cats@[0]]);
                    assert(out@ =~= spec_joined_names(t1));
                }
            }
            i += 1;
        }
        assert(cats@.take(n as int) =~= cats@);
        out
    }
}


/// One of the seven one-letter major-class designations.
pub open spec fn spec_is_major_letter(ch: char) -> bool {
    ch == 'L' || ch == 'M' || ch == 'N' || ch == 'P' || ch == 'S' || ch == 'Z' || ch == 'C'
}

/// A token names this category: either it is the category's own two-letter
/// abbreviation, or it is the one-letter major class the category belongs to.
pub open spec fn spec_token_adds(s: Seq<char>, c: UnicodeCategory) -> bool {
    if s.len() == 1 && spec_is_major_letter(s[0]) {
        spec_category_name(c)[0] == s[0]
    } else {
        spec_category_of(s) == Some(c)
    }
}

/// A token is accepted: a major-class letter or a category abbreviation.
pub open spec fn spec_token_valid(s: Seq<char>) -> bool {
    (s.len() == 1 && spec_is_major_letter(s[0])) || spec_category_of(s) is Some
}

/// The names of `cats` joined with a comma and a space.
pub open spec fn spec_joined_names(cats: Seq<UnicodeCategory>) -> Seq<char>
    decreases cats.len(),
{
    if cats.len() == 0 {
        Seq::empty()
    } else if cats.len() == 1 {
        spec_category_name(cats[0])
    } else {
        spec_joined_names(cats.drop_last()) + seq![',', ' '] + spec_category_name(cats.last())
    }
}

/// The set of all categories whose abbreviation starts with `letter`.
fn major_class_set(letter: char) -> (r: CategoryBitMap)
    requires
        spec_is_major_letter(letter),
    ensures
        forall|c: UnicodeCategory| r.has(c) <==> spec_category_name(c)[0] == letter,
{
    let mut m = CategoryBitMap::new();
    match letter {
        'L' => {
            m.add_category(UnicodeCategory::Ll);
            m.add_category(UnicodeCategory::Lm);
            m.add_category(UnicodeCategory::Lo);
            m.add_category(UnicodeCategory::Lt);
            m.add_category(UnicodeCategory::Lu);
        },
        'M' => {
            m.add_category(UnicodeCategory::Mc);
            m.add_category(UnicodeCategory::Me);
            m.add_category(UnicodeCategory::Mn);
        },
        'N' => {
            m.add_category(UnicodeCategory::Nd);
            m.add_category(UnicodeCategory::Nl);
            m.add_category(UnicodeCategory::No);
        },
        'P' => {
            m.add_category(UnicodeCategory::Pc);
            m.add_category(UnicodeCategory::Pd);
            m.add_category(UnicodeCategory::Pe);
            m.add_category(UnicodeCategory::Pf);
            m.add_category(UnicodeCategory::Pi);
            m.add_category(UnicodeCategory::Po);
            m.add_category(UnicodeCategory::Ps);
        },
        'S' => {
            m.add_category(UnicodeCategory::Sc);
            m.add_category(UnicodeCategory::Sk);
            m.add_category(UnicodeCategory::Sm);
            m.add_category(UnicodeCategory::So);
        },
        'Z' => {
            m.add_category(UnicodeCategory::Zl);
            m.add_category(UnicodeCategory::Zp);
            m.add_category(UnicodeCategory::Zs);
        },
        _ => {
            m.add_category(UnicodeCategory::Cc);
            m.add_category(UnicodeCategory::Cf);
            m.add_category(UnicodeCategory::Cn);
            m.add_category(UnicodeCategory::Co);
            m.add_category(UnicodeCategory::Cs);
        },
    }
    m
}

/// All letter categories.
#[allow(non_snake_case)]
pub fn L() -> (r: CategoryBitMap)
    ensures
        forall|c: UnicodeCategory| r.has(c) <==> spec_category_name(c)[0] == 'L',
{
    major_class_set('L')
}

/// All mark categories.
#[allow(non_snake_case)]
pub fn M() -> (r: CategoryBitMap)
    ensures
        forall|c: UnicodeCategory| r.has(c) <==> spec_category_name(c)[0] == 'M',
{
    major_class_set('M')
}

/// All number categories.
#[allow(non_snake_case)]
pub fn N() -> (r: CategoryBitMap)
    ensures
        forall|c: UnicodeCategory| r.has(c) <==> spec_category_name(c)[0] == 'N',
{
    major_class_set('N')
}

/// All punctuation categories.
#[allow(non_snake_case)]
pub fn P() -> (r: CategoryBitMap)
    ensures
        forall|c: UnicodeCategory| r.has(c) <==> spec_category_name(c)[0] == 'P',
{
    major_class_set('P')
}

/// All symbol categories.
#[allow(non_snake_case)]
pub fn S() -> (r: CategoryBitMap)
    ensures
        forall|c: UnicodeCategory| r.has(c) <==> spec_category_name(c)[0] == 'S',
{
    major_class_set('S')
}

/// All separator categories.
#[allow(non_snake_case)]
pub fn Z() -> (r: CategoryBitMap)
    ensures
        forall|c: UnicodeCategory| r.has(c) <==> spec_category_name(c)[0] == 'Z',
{
    major_class_set('Z')
}

/// All other (control-like) categories.
#[allow(non_snake_case)]
pub fn C() -> (r: CategoryBitMap)
    ensures
        forall|c: UnicodeCategory| r.has(c) <==> spec_category_name(c)[0] == 'C',
{
    major_class_set('C')
}

/// The major-class letter of a category: the first character of its name.
pub fn category_major_letter(c: UnicodeCategory) -> (r: char)
    ensures
        r == spec_category_name(c)[0],
{
    match c {
        UnicodeCategory::Pe => 'P',
        UnicodeCategory::Pc => 'P',
        UnicodeCategory::Cc => 'C',
        UnicodeCategory::Sc => 'S',
        UnicodeCategory::Pd => 'P',
        UnicodeCategory::Nd => 'N',
        UnicodeCategory::Me => 'M',
        UnicodeCategory::Pf => 'P',
        UnicodeCategory::Cf => 'C',
        UnicodeCategory::Pi => 'P',
        UnicodeCategory::Nl => 'N',
        UnicodeCategory::Zl => 'Z',
        UnicodeCategory::Ll => 'L',
        UnicodeCategory::Sm => 'S',
        UnicodeCategory::Lm => 'L',
        UnicodeCategory::Sk => 'S',
        UnicodeCategory::Mn => 'M',
        UnicodeCategory::Ps => 'P',
        UnicodeCategory::Lo => 'L',
        UnicodeCategory::No => 'N',
        UnicodeCategory::Po => 'P',
        UnicodeCategory::So => 'S',
        UnicodeCategory::Zp => 'Z',
        UnicodeCategory::Co => 'C',
        UnicodeCategory::Zs => 'Z',
        UnicodeCategory::Mc => 'M',
        UnicodeCategory::Cs => 'C',
        UnicodeCategory::Lt => 'L',
        UnicodeCategory::Cn => 'C',
        UnicodeCategory::Lu => 'L',
    }
}

} // verus!
