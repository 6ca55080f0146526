//! Surface materials and what air and walls take from sound.

use crate::arith::{
    ask, diff, greater, greater_of, lesser, lesser_of, minus, over, prod, quot, times, Calc, Op,
};
use crate::params::ONE;
use crate::probe::{answering, is_steady};
use crate::single::Single;
use vstd::prelude::*;

verus! {

/// Per-band acoustic surface properties. Absorption is the share of energy
/// lost with each reflection; scattering the share of the reflected energy
/// that leaves diffusely; transmission the amplitude that gets through 15 cm
/// of the material.
#[derive(Clone, Copy, Debug)]
pub struct Material {
    pub absorption: [Single; 3],
    pub scattering: Single,
    pub transmission: [Single; 3],
}

/// The pattern of 0.15: the thickness, in meters, that transmission is given
/// for.
pub const REF_THICKNESS_M: u32 = 0x3E19_999A;

/// The pattern of 0.02: the least thickness.
pub const THIN: u32 = 0x3CA3_D70A;

/// The pattern of 2.0: how much a thin wall lets through at most.
pub const THIN_GAIN: u32 = 0x4000_0000;

/// The pattern of 0.9: no wall lets more through.
pub const LEAKY: u32 = 0x3F66_6666;

/// The patterns of the air's amplitude decay per meter: -1e-4, -5e-4, -3e-3.
pub const AIR_LOW: u32 = 0xB8D1_B717;

pub const AIR_MID: u32 = 0xBA03_126F;

pub const AIR_HIGH: u32 = 0xBB44_9BA6;

/// A triple of patterns.
pub open spec fn bands(low: u32, mid: u32, high: u32) -> [Single; 3] {
    [Single(low), Single(mid), Single(high)]
}

/// What gets through a wall of a thickness: the loss grows by 6 dB with every
/// doubling, so the amplitude goes with the inverse.
pub open spec fn thinned(f: Calc, through: Single, thickness_m: Single) -> Single {
    let k = lesser(
        quot(f, Single(REF_THICKNESS_M), greater(thickness_m, Single(THIN))),
        Single(THIN_GAIN),
    );
    lesser(prod(f, through, k), Single(LEAKY))
}

/// The amplitude that is reflected: the root of the energy that is not lost.
pub open spec fn reflected(f: Calc, absorption: Single) -> Single {
    f(Op::Root(greater(diff(f, Single(ONE), absorption), Single(0))))
}

fn reflect<F: Fn(Op) -> Single>(f: &F, absorption: Single) -> (r: Single)
    requires
        is_steady(*f),
    ensures
        r == reflected(answering(*f), absorption),
{
    let rest: Single = greater_of(minus(f, Single(ONE), absorption), Single(0));
    ask(f, Op::Root(rest))
}

impl Material {
    /// Poured concrete: absorption 0.01/0.02/0.04, scattering 0.1, transmission 0.1/0.014/0.0015.
    pub open spec fn is_concrete(self) -> bool {
        &&& self.absorption@ == bands(0x3C23_D70A, 0x3CA3_D70A, 0x3D23_D70A)@
        &&& self.scattering == Single(0x3DCC_CCCD)
        &&& self.transmission@ == bands(0x3DCC_CCCD, 0x3C65_6042, 0x3AC4_9BA6)@
    }

    pub fn concrete() -> (m: Material)
        ensures
            m.is_concrete(),
    {
        let m: Material = Material {
            absorption: [Single(0x3C23_D70A), Single(0x3CA3_D70A), Single(0x3D23_D70A)],
            scattering: Single(0x3DCC_CCCD),
            transmission: [Single(0x3DCC_CCCD), Single(0x3C65_6042), Single(0x3AC4_9BA6)],
        };
        m
    }

    /// Drywall on studs: absorption 0.2/0.08/0.05, scattering 0.1, transmission 0.2/0.045/0.015.
    pub open spec fn is_drywall(self) -> bool {
        &&& self.absorption@ == bands(0x3E4C_CCCD, 0x3DA3_D70A, 0x3D4C_CCCD)@
        &&& self.scattering == Single(0x3DCC_CCCD)
        &&& self.transmission@ == bands(0x3E4C_CCCD, 0x3D38_51EC, 0x3C75_C28F)@
    }

    pub fn drywall() -> (m: Material)
        ensures
            m.is_drywall(),
    {
        let m: Material = Material {
            absorption: [Single(0x3E4C_CCCD), Single(0x3DA3_D70A), Single(0x3D4C_CCCD)],
            scattering: Single(0x3DCC_CCCD),
            transmission: [Single(0x3E4C_CCCD), Single(0x3D38_51EC), Single(0x3C75_C28F)],
        };
        m
    }

    /// Carpet: absorption 0.05/0.3/0.6, scattering 0.4, transmission 0.3/0.1/0.03.
    pub open spec fn is_carpet(self) -> bool {
        &&& self.absorption@ == bands(0x3D4C_CCCD, 0x3E99_999A, 0x3F19_999A)@
        &&& self.scattering == Single(0x3ECC_CCCD)
        &&& self.transmission@ == bands(0x3E99_999A, 0x3DCC_CCCD, 0x3CF5_C28F)@
    }

    pub fn carpet() -> (m: Material)
        ensures
            m.is_carpet(),
    {
        let m: Material = Material {
            absorption: [Single(0x3D4C_CCCD), Single(0x3E99_999A), Single(0x3F19_999A)],
            scattering: Single(0x3ECC_CCCD),
            transmission: [Single(0x3E99_999A), Single(0x3DCC_CCCD), Single(0x3CF5_C28F)],
        };
        m
    }

    /// Wood panelling: absorption 0.2/0.1/0.08, scattering 0.15, transmission 0.22/0.06/0.02.
    pub open spec fn is_wood_panel(self) -> bool {
        &&& self.absorption@ == bands(0x3E4C_CCCD, 0x3DCC_CCCD, 0x3DA3_D70A)@
        &&& self.scattering == Single(0x3E19_999A)
        &&& self.transmission@ == bands(0x3E61_47AE, 0x3D75_C28F, 0x3CA3_D70A)@
    }

    pub fn wood_panel() -> (m: Material)
        ensures
            m.is_wood_panel(),
    {
        let m: Material = Material {
            absorption: [Single(0x3E4C_CCCD), Single(0x3DCC_CCCD), Single(0x3DA3_D70A)],
            scattering: Single(0x3E19_999A),
            transmission: [Single(0x3E61_47AE), Single(0x3D75_C28F), Single(0x3CA3_D70A)],
        };
        m
    }

    /// Acoustic ceiling tile: absorption 0.3/0.7/0.8, scattering 0.3, transmission 0.3/0.1/0.03.
    pub open spec fn is_acoustic_tile(self) -> bool {
        &&& self.absorption@ == bands(0x3E99_999A, 0x3F33_3333, 0x3F4C_CCCD)@
        &&& self.scattering == Single(0x3E99_999A)
        &&& self.transmission@ == bands(0x3E99_999A, 0x3DCC_CCCD, 0x3CF5_C28F)@
    }

    pub fn acoustic_tile() -> (m: Material)
        ensures
            m.is_acoustic_tile(),
    {
        let m: Material = Material {
            absorption: [Single(0x3E99_999A), Single(0x3F33_3333), Single(0x3F4C_CCCD)],
            scattering: Single(0x3E99_999A),
            transmission: [Single(0x3E99_999A), Single(0x3DCC_CCCD), Single(0x3CF5_C28F)],
        };
        m
    }

    /// Plastered single-leaf brick: absorption 0.02/0.03/0.04, scattering 0.12, transmission 0.045/0.008/0.0012.
    pub open spec fn is_brick(self) -> bool {
        &&& self.absorption@ == bands(0x3CA3_D70A, 0x3CF5_C28F, 0x3D23_D70A)@
        &&& self.scattering == Single(0x3DF5_C28F)
        &&& self.transmission@ == bands(0x3D38_51EC, 0x3C03_126F, 0x3A9D_4952)@
    }

    pub fn brick() -> (m: Material)
        ensures
            m.is_brick(),
    {
        let m: Material = Material {
            absorption: [Single(0x3CA3_D70A), Single(0x3CF5_C28F), Single(0x3D23_D70A)],
            scattering: Single(0x3DF5_C28F),
            transmission: [Single(0x3D38_51EC), Single(0x3C03_126F), Single(0x3A9D_4952)],
        };
        m
    }

    /// Grass: absorption 0.11/0.26/0.6, scattering 0.5, transmission 0.1/0.02/0.005.
    pub open spec fn is_grass(self) -> bool {
        &&& self.absorption@ == bands(0x3DE1_47AE, 0x3E85_1EB8, 0x3F19_999A)@
        &&& self.scattering == Single(0x3F00_0000)
        &&& self.transmission@ == bands(0x3DCC_CCCD, 0x3CA3_D70A, 0x3BA3_D70A)@
    }

    pub fn grass() -> (m: Material)
        ensures
            m.is_grass(),
    {
        let m: Material = Material {
            absorption: [Single(0x3DE1_47AE), Single(0x3E85_1EB8), Single(0x3F19_999A)],
            scattering: Single(0x3F00_0000),
            transmission: [Single(0x3DCC_CCCD), Single(0x3CA3_D70A), Single(0x3BA3_D70A)],
        };
        m
    }

    /// What gets through a wall of a thickness, band by band.
    pub open spec fn passing(self, f: Calc, thickness_m: Single) -> [Single; 3] {
        [
            thinned(f, self.transmission@[0], thickness_m),
            thinned(f, self.transmission@[1], thickness_m),
            thinned(f, self.transmission@[2], thickness_m),
        ]
    }

    /// The amplitudes that get through a wall of a thickness.
    pub fn transmission_at<F: Fn(Op) -> Single>(&self, f: &F, thickness_m: Single) -> (r: [Single; 3])
        requires
            is_steady(*f),
        ensures
            r == self.passing(answering(*f), thickness_m),
    {
        let t: Single = greater_of(thickness_m, Single(THIN));
        let k: Single = lesser_of(over(f, Single(REF_THICKNESS_M), t), Single(THIN_GAIN));
        let r: [Single; 3] = [
            lesser_of(times(f, self.transmission[0], k), Single(LEAKY)),
            lesser_of(times(f, self.transmission[1], k), Single(LEAKY)),
            lesser_of(times(f, self.transmission[2], k), Single(LEAKY)),
        ];
        assert(r@ =~= self.passing(answering(*f), thickness_m)@);
        r
    }

    /// What is reflected, band by band.
    pub open spec fn reflecting(self, f: Calc) -> [Single; 3] {
        [
            reflected(f, self.absorption@[0]),
            reflected(f, self.absorption@[1]),
            reflected(f, self.absorption@[2]),
        ]
    }

    /// The amplitudes that are reflected.
    pub fn reflection_amplitude<F: Fn(Op) -> Single>(&self, f: &F) -> (r: [Single; 3])
        requires
            is_steady(*f),
        ensures
            r == self.reflecting(answering(*f)),
    {
        let r: [Single; 3] = [
            reflect(f, self.absorption[0]),
            reflect(f, self.absorption[1]),
            reflect(f, self.absorption[2]),
        ];
        assert(r@ =~= self.reflecting(answering(*f))@);
        r
    }
}

/// What is left of an amplitude after a distance through air.
pub open spec fn aired(f: Calc, minus_decay: Single, dist: Single) -> Single {
    f(Op::Exp(prod(f, minus_decay, dist)))
}

fn air<F: Fn(Op) -> Single>(f: &F, minus_decay: Single, dist: Single) -> (r: Single)
    requires
        is_steady(*f),
    ensures
        r == aired(answering(*f), minus_decay, dist),
{
    let x: Single = times(f, minus_decay, dist);
    ask(f, Op::Exp(x))
}

/// The attenuation of air over a distance, band by band.
pub open spec fn through_air(f: Calc, dist: Single) -> [Single; 3] {
    [
        aired(f, Single(AIR_LOW), dist),
        aired(f, Single(AIR_MID), dist),
        aired(f, Single(AIR_HIGH), dist),
    ]
}

pub fn air_attenuation<F: Fn(Op) -> Single>(f: &F, dist: Single) -> (r: [Single; 3])
    requires
        is_steady(*f),
    ensures
        r == through_air(answering(*f), dist),
{
    let r: [Single; 3] = [
        air(f, Single(AIR_LOW), dist),
        air(f, Single(AIR_MID), dist),
        air(f, Single(AIR_HIGH), dist),
    ];
    assert(r@ =~= through_air(answering(*f), dist)@);
    r
}

/// The amplitudes left of a source at a distance: spreading and air.
pub open spec fn spread_over(f: Calc, dist: Single) -> [Single; 3] {
    let a = through_air(f, dist);
    [quot(f, a@[0], dist), quot(f, a@[1], dist), quot(f, a@[2], dist)]
}

pub fn spreading<F: Fn(Op) -> Single>(f: &F, dist: Single) -> (r: [Single; 3])
    requires
        is_steady(*f),
    ensures
        r == spread_over(answering(*f), dist),
{
    let a: [Single; 3] = air_attenuation(f, dist);
    let r: [Single; 3] = [over(f, a[0], dist), over(f, a[1], dist), over(f, a[2], dist)];
    assert(r@ =~= spread_over(answering(*f), dist)@);
    r
}

/// The pattern of 343.0: metres that sound travels in a second.
pub const SPEED_OF_SOUND: u32 = 0x43AB_8000;

/// The pattern of 0.3: what is nearer than this is heard from there.
pub const MIN_DIST: u32 = 0x3E99_999A;

} // verus!
