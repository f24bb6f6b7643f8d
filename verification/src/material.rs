//! Materials of the falling-sand physics.
use vstd::arithmetic::power2::{lemma_pow2_pos, lemma_pow2_unfold, pow2};
use vstd::prelude::*;

verus! {

/// Index into the material table. 0 is always Empty.
pub type MaterialId = u8;

pub const EMPTY: MaterialId = 0;

pub const SAND: MaterialId = 1;

pub const WATER: MaterialId = 2;

pub const STONE: MaterialId = 3;

/// Broad behavioral class of a material; the step function dispatches on
/// this, with `density` refining displacement order within and between
/// phases.
#[derive(Clone, Copy, PartialEq, Eq, Debug, Structural)]
pub enum Phase {
    Empty,
    /// Static, never moves on its own (stone, wood).
    Solid,
    /// Falls, piles up diagonally (sand).
    Powder,
    /// Falls, spreads sideways to find its level (water).
    Liquid,
    /// Rises, diffuses (steam, smoke).
    Gas,
}

/// A density as a single-precision number, held as its IEEE 754 bit pattern:
/// a sign bit, eight bits of exponent and twenty-three bits of fraction.
#[derive(Clone, Copy, PartialEq, Eq, Debug, Structural)]
pub struct Density {
    bits: u32,
}

/// The number that the lower thirty-one bits stand for, counted in the
/// smallest positive number. Infinity counts as the number that its bits
/// would stand for, which is larger than any other.
pub open spec fn magnitude(bits: int) -> int {
    let exponent = bits / 0x80_0000;
    let fraction = bits % 0x80_0000;
    if exponent == 0 {
        fraction
    } else {
        (0x80_0000 + fraction) * pow2((exponent - 1) as nat)
    }
}

proof fn lemma_magnitude_next(bits: int)
    requires
        0 <= bits,
    ensures
        magnitude(bits) < magnitude(bits + 1),
{
    let (exponent, fraction) = (bits / 0x80_0000, bits % 0x80_0000);
    if exponent > 0 {
        lemma_pow2_pos((exponent - 1) as nat);
        let scale = pow2((exponent - 1) as nat);
        if fraction + 1 < 0x80_0000 {
            assert((bits + 1) / 0x80_0000 == exponent && (bits + 1) % 0x80_0000 == fraction + 1);
            assert((0x80_0000 + fraction) * scale < (0x80_0000 + fraction + 1) * scale)
                by (nonlinear_arith)
                requires
                    scale > 0,
            ;
        } else {
            assert((bits + 1) / 0x80_0000 == exponent + 1 && (bits + 1) % 0x80_0000 == 0);
            lemma_pow2_unfold(exponent as nat);
            assert((0x80_0000 + fraction) * scale < 0x80_0000 * (2 * scale)) by (nonlinear_arith)
                requires
                    scale > 0,
                    fraction < 0x80_0000,
            ;
        }
    } else if fraction + 1 == 0x80_0000 {
        assert((bits + 1) / 0x80_0000 == 1 && (bits + 1) % 0x80_0000 == 0);
        vstd::arithmetic::power2::lemma2_to64();
    }
}

proof fn lemma_magnitude_increases(low: int, high: int)
    requires
        0 <= low < high,
    ensures
        magnitude(low) < magnitude(high),
    decreases high - low,
{
    lemma_magnitude_next(high - 1);
    if low < high - 1 {
        lemma_magnitude_increases(low, high - 1);
    }
}

impl Density {
    pub closed spec fn spec_bits(self) -> u32 {
        self.bits
    }

    /// A density that stands for no number.
    pub open spec fn is_nan(self) -> bool {
        self.spec_bits() % 0x8000_0000 > 0x7f80_0000
    }

    /// The number, counted in the smallest positive one.
    pub open spec fn value(self) -> int {
        if self.spec_bits() < 0x8000_0000 {
            magnitude(self.spec_bits() as int)
        } else {
            -magnitude(self.spec_bits() - 0x8000_0000)
        }
    }

    /// Whether the density is the larger number; what stands for no number is
    /// not larger than anything, and nothing is larger than it.
    pub open spec fn exceeds(self, other: Density) -> bool {
        !self.is_nan() && !other.is_nan() && self.value() > other.value()
    }

    pub fn from_bits(bits: u32) -> (r: Self)
        ensures
            r.spec_bits() == bits,
    {
        Density { bits }
    }

    pub fn to_bits(self) -> (r: u32)
        ensures
            r == self.spec_bits(),
    {
        self.bits
    }

    /// The density's place among the numbers: the lower bits, negative for a
    /// negative number. `None` where it stands for no number.
    fn rank(self) -> (r: Option<i64>)
        ensures
            r is None <==> self.is_nan(),
            r matches Some(n) ==> n == (if self.spec_bits() < 0x8000_0000 {
                self.spec_bits() as int
            } else {
                0x8000_0000 - self.spec_bits()
            }),
    {
        let lower: i64 = (self.bits % 0x8000_0000) as i64;
        if lower > 0x7f80_0000 {
            None
        } else if self.bits < 0x8000_0000 {
            Some(lower)
        } else {
            Some(-lower)
        }
    }

    pub fn is_above(self, other: Density) -> (r: bool)
        ensures
            r == self.exceeds(other),
    {
        match (self.rank(), other.rank()) {
            (Some(a), Some(b)) => {
                proof {
                    self.lemma_value(a as int);
                    other.lemma_value(b as int);
                    lemma_signed_increases(a as int, b as int);
                }
                a > b
            },
            _ => false,
        }
    }

    proof fn lemma_value(self, rank: int)
        requires
            rank == (if self.spec_bits() < 0x8000_0000 {
                self.spec_bits() as int
            } else {
                0x8000_0000 - self.spec_bits()
            }),
        ensures
            self.value() == signed(rank),
    {
    }
}

spec fn signed(rank: int) -> int {
    if rank >= 0 {
        magnitude(rank)
    } else {
        -magnitude(-rank)
    }
}

proof fn lemma_signed_increases(a: int, b: int)
    ensures
        a > b <==> signed(a) > signed(b),
{
    lemma_signed_less(a, b);
    lemma_signed_less(b, a);
}

proof fn lemma_signed_less(a: int, b: int)
    ensures
        a > b ==> signed(a) > signed(b),
{
    if a > b {
        if b >= 0 {
            lemma_magnitude_increases(b, a);
        } else if a < 0 {
            lemma_magnitude_increases(-a, -b);
        } else {
            lemma_magnitude_increases(0, -b);
            if a > 0 {
                lemma_magnitude_increases(0, a);
            }
        }
    }
}

/// A material is a data record, not code, so palettes can be authored, saved,
/// and shared the same way rule stacks are.
#[derive(Debug)]
pub struct Material {
    pub name: String,
    pub phase: Phase,
    /// Determines displacement order: denser sinks through lighter fluids.
    pub density: Density,
    /// 0xRRGGBB.
    pub color: u32,
}

impl Clone for Material {
    fn clone(&self) -> (r: Self)
        ensures
            r == *self,
    {
        Material {
            name: self.name.clone(),
            phase: self.phase,
            density: self.density,
            color: self.color,
        }
    }
}

/// What a phase is called.
pub open spec fn label_of(phase: Phase) -> Seq<char> {
    match phase {
        Phase::Empty => "empty"@,
        Phase::Solid => "solid"@,
        Phase::Powder => "powder"@,
        Phase::Liquid => "liquid"@,
        Phase::Gas => "gas"@,
    }
}

impl Material {
    pub fn phase_label(&self) -> (r: &'static str)
        ensures
            r@ == label_of(self.phase),
    {
        match self.phase {
            Phase::Empty => "empty",
            Phase::Solid => "solid",
            Phase::Powder => "powder",
            Phase::Liquid => "liquid",
            Phase::Gas => "gas",
        }
    }
}

/// The material has the given properties.
pub open spec fn describes(
    material: Material,
    name: Seq<char>,
    phase: Phase,
    density_bits: u32,
    color: u32,
) -> bool {
    &&& material.name@ == name
    &&& material.phase == phase
    &&& material.density.spec_bits() == density_bits
    &&& material.color == color
}

fn material(name: &str, phase: Phase, density_bits: u32, color: u32) -> (r: Material)
    ensures
        describes(r, name@, phase, density_bits, color),
{
    Material { name: name.to_string(), phase, density: Density::from_bits(density_bits), color }
}

/// The materials of the built-in palette. Their densities are 0, 1.5, 1 and 3.
pub open spec fn is_builtin_palette(materials: Seq<Material>) -> bool {
    &&& materials.len() == 4
    &&& describes(materials[EMPTY as int], "Empty"@, Phase::Empty, 0, 0x000000)
    &&& describes(materials[SAND as int], "Sand"@, Phase::Powder, 0x3fc0_0000, 0xd8b45a)
    &&& describes(materials[WATER as int], "Water"@, Phase::Liquid, 0x3f80_0000, 0x4a90d9)
    &&& describes(materials[STONE as int], "Stone"@, Phase::Solid, 0x4040_0000, 0x8b8b93)
}

/// Built-in palette. The index in the returned `Vec` is the `MaterialId`,
/// matching the `EMPTY`, `SAND`, ... constants above.
pub fn builtin_materials() -> (r: Vec<Material>)
    ensures
        is_builtin_palette(r@),
{
    let mut materials: Vec<Material> = Vec::new();
    materials.push(material("Empty", Phase::Empty, 0, 0x000000));
    materials.push(material("Sand", Phase::Powder, 0x3fc0_0000, 0xd8b45a));
    materials.push(material("Water", Phase::Liquid, 0x3f80_0000, 0x4a90d9));
    materials.push(material("Stone", Phase::Solid, 0x4040_0000, 0x8b8b93));
    materials
}

/// The built-in sand is denser than the water, and the stone denser than both.
pub proof fn law_builtin_density_order(materials: Seq<Material>)
    requires
        is_builtin_palette(materials),
    ensures
        materials[SAND as int].density.exceeds(materials[WATER as int].density),
        materials[STONE as int].density.exceeds(materials[SAND as int].density),
{
    lemma_magnitude_increases(0x3f80_0000, 0x3fc0_0000);
    lemma_magnitude_increases(0x3fc0_0000, 0x4040_0000);
}

/// A density is not above itself, and of two of them at most one is above the
/// other.
pub proof fn law_density_order(a: Density, b: Density, c: Density)
    ensures
        !a.exceeds(a),
        a.exceeds(b) ==> !b.exceeds(a),
        a.exceeds(b) && b.exceeds(c) ==> a.exceeds(c),
{
}

/// Densities compare as single-precision numbers do. Of two numbers that are
/// not negative the one with the larger bit pattern is above; of two negative
/// ones the one with the smaller. A positive number is above a negative one, the
/// two zeros are the same, and what stands for no number compares with nothing.
pub proof fn law_densities_compare_by_bits(a: Density, b: Density)
    ensures
        ({
            let (m, n) = (a.spec_bits() as int, b.spec_bits() as int);
            let (low, high) = (0x8000_0000int, 0x7f80_0000int);
            &&& m <= high && n <= high ==> (a.exceeds(b) <==> m > n)
            &&& low <= m <= low + high && low <= n <= low + high ==> (a.exceeds(b) <==> m < n)
            &&& m <= high && low <= n <= low + high ==> (a.exceeds(b) <==> !(m == 0 && n == low))
            &&& low <= m <= low + high && n <= high ==> !a.exceeds(b)
            &&& high < m < low || low + high < m ==> !a.exceeds(b)
            &&& high < n < low || low + high < n ==> !a.exceeds(b)
        }),
{
    let rank = |d: Density|
        if d.spec_bits() < 0x8000_0000 {
            d.spec_bits() as int
        } else {
            0x8000_0000 - d.spec_bits()
        };
    a.lemma_value(rank(a));
    b.lemma_value(rank(b));
    lemma_signed_increases(rank(a), rank(b));
}

/// The built-in materials: nothing, a powder, a liquid and a solid. The sand is
/// one and a half times as dense as the water, the stone three times, and
/// nothing weighs nothing.
pub proof fn law_builtin_palette(materials: Seq<Material>)
    requires
        is_builtin_palette(materials),
    ensures
        materials.len() == 4,
        materials[0].phase is Empty,
        materials[1].phase is Powder,
        materials[2].phase is Liquid,
        materials[3].phase is Solid,
        materials[0].density.value() == 0,
        materials[2].density.value() > 0,
        2 * materials[1].density.value() == 3 * materials[2].density.value(),
        materials[3].density.value() == 3 * materials[2].density.value(),
{
    lemma_pow2_pos(126);
    lemma_pow2_unfold(127);
    let unit = pow2(126) as int;
    assert(magnitude(0x3f80_0000) == 0x80_0000 * unit);
    assert(magnitude(0x3fc0_0000) == 0xc0_0000 * unit);
    assert(magnitude(0x4040_0000) == 0xc0_0000 * (2 * unit));
    assert(0xc0_0000 * (2 * unit) == 3 * (0x80_0000 * unit));
}

} // verus!
