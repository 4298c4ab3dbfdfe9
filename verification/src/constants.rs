//! The base dimensions and the common derived dimensions, each as a literal
//! of integer exponents in the order length, mass, time, electric current,
//! temperature, amount of substance, luminous intensity.

use crate::dimensional::Dimension;
use vstd::prelude::*;

verus! {

/// The dimension of a pure number.
pub fn dimensionless() -> (d: Dimension)
    ensures
        d == Dimension::PowerLaw(0, 0, 0, 0, 0, 0, 0),
{
    Dimension::PowerLaw(0, 0, 0, 0, 0, 0, 0)
}

/// Length, `L`.
pub fn length() -> (d: Dimension)
    ensures
        d == Dimension::PowerLaw(1, 0, 0, 0, 0, 0, 0),
{
    Dimension::PowerLaw(1, 0, 0, 0, 0, 0, 0)
}

/// Mass, `M`.
pub fn mass() -> (d: Dimension)
    ensures
        d == Dimension::PowerLaw(0, 1, 0, 0, 0, 0, 0),
{
    Dimension::PowerLaw(0, 1, 0, 0, 0, 0, 0)
}

/// Time, `T`.
pub fn time() -> (d: Dimension)
    ensures
        d == Dimension::PowerLaw(0, 0, 1, 0, 0, 0, 0),
{
    Dimension::PowerLaw(0, 0, 1, 0, 0, 0, 0)
}

/// Electric current, `I`.
pub fn electric_current() -> (d: Dimension)
    ensures
        d == Dimension::PowerLaw(0, 0, 0, 1, 0, 0, 0),
{
    Dimension::PowerLaw(0, 0, 0, 1, 0, 0, 0)
}

/// Thermodynamic temperature, `Θ`.
pub fn temperature() -> (d: Dimension)
    ensures
        d == Dimension::PowerLaw(0, 0, 0, 0, 1, 0, 0),
{
    Dimension::PowerLaw(0, 0, 0, 0, 1, 0, 0)
}

/// Amount of substance, `N`.
pub fn amount_of_substance() -> (d: Dimension)
    ensures
        d == Dimension::PowerLaw(0, 0, 0, 0, 0, 1, 0),
{
    Dimension::PowerLaw(0, 0, 0, 0, 0, 1, 0)
}

/// Luminous intensity, `J`.
pub fn luminous_intensity() -> (d: Dimension)
    ensures
        d == Dimension::PowerLaw(0, 0, 0, 0, 0, 0, 1),
{
    Dimension::PowerLaw(0, 0, 0, 0, 0, 0, 1)
}

/// Area, `L^2`.
pub fn area() -> (d: Dimension)
    ensures
        d == Dimension::PowerLaw(2, 0, 0, 0, 0, 0, 0),
{
    Dimension::PowerLaw(2, 0, 0, 0, 0, 0, 0)
}

/// Volume, `L^3`.
pub fn volume() -> (d: Dimension)
    ensures
        d == Dimension::PowerLaw(3, 0, 0, 0, 0, 0, 0),
{
    Dimension::PowerLaw(3, 0, 0, 0, 0, 0, 0)
}

/// Frequency, `T^-1`.
pub fn frequency() -> (d: Dimension)
    ensures
        d == Dimension::PowerLaw(0, 0, -1i32, 0, 0, 0, 0),
{
    Dimension::PowerLaw(0, 0, -1, 0, 0, 0, 0)
}

/// Velocity, `LT^-1`.
pub fn velocity() -> (d: Dimension)
    ensures
        d == Dimension::PowerLaw(1, 0, -1i32, 0, 0, 0, 0),
{
    Dimension::PowerLaw(1, 0, -1, 0, 0, 0, 0)
}

/// Acceleration, `LT^-2`.
pub fn acceleration() -> (d: Dimension)
    ensures
        d == Dimension::PowerLaw(1, 0, -2i32, 0, 0, 0, 0),
{
    Dimension::PowerLaw(1, 0, -2, 0, 0, 0, 0)
}

/// Force, `LMT^-2`.
pub fn force() -> (d: Dimension)
    ensures
        d == Dimension::PowerLaw(1, 1, -2i32, 0, 0, 0, 0),
{
    Dimension::PowerLaw(1, 1, -2, 0, 0, 0, 0)
}

/// Energy, `L^2MT^-2`.
pub fn energy() -> (d: Dimension)
    ensures
        d == Dimension::PowerLaw(2, 1, -2i32, 0, 0, 0, 0),
{
    Dimension::PowerLaw(2, 1, -2, 0, 0, 0, 0)
}

/// Power, `L^2MT^-3`.
pub fn power() -> (d: Dimension)
    ensures
        d == Dimension::PowerLaw(2, 1, -3i32, 0, 0, 0, 0),
{
    Dimension::PowerLaw(2, 1, -3, 0, 0, 0, 0)
}

/// Density, `L^-3M`.
pub fn density() -> (d: Dimension)
    ensures
        d == Dimension::PowerLaw(-3i32, 1, 0, 0, 0, 0, 0),
{
    Dimension::PowerLaw(-3, 1, 0, 0, 0, 0, 0)
}

/// Pressure, `L^-1MT^-2`.
pub fn pressure() -> (d: Dimension)
    ensures
        d == Dimension::PowerLaw(-1i32, 1, -2i32, 0, 0, 0, 0),
{
    Dimension::PowerLaw(-1, 1, -2, 0, 0, 0, 0)
}

/// Electric charge, `TI`.
pub fn electric_charge() -> (d: Dimension)
    ensures
        d == Dimension::PowerLaw(0, 0, 1, 1, 0, 0, 0),
{
    Dimension::PowerLaw(0, 0, 1, 1, 0, 0, 0)
}

/// Electric potential, `L^2MT^-2I^-1`.
pub fn electric_potential() -> (d: Dimension)
    ensures
        d == Dimension::PowerLaw(2, 1, -2i32, -1i32, 0, 0, 0),
{
    Dimension::PowerLaw(2, 1, -2, -1, 0, 0, 0)
}

/// Resistance, `L^2MT^-2I^-2`.
pub fn resistance() -> (d: Dimension)
    ensures
        d == Dimension::PowerLaw(2, 1, -2i32, -2i32, 0, 0, 0),
{
    Dimension::PowerLaw(2, 1, -2, -2, 0, 0, 0)
}

/// Capacitance, `L^-2M^-1T^3I^2`.
pub fn capacitance() -> (d: Dimension)
    ensures
        d == Dimension::PowerLaw(-2i32, -1i32, 3, 2, 0, 0, 0),
{
    Dimension::PowerLaw(-2, -1, 3, 2, 0, 0, 0)
}

/// Inductance, `L^2MT^-2I^-2`.
pub fn inductance() -> (d: Dimension)
    ensures
        d == Dimension::PowerLaw(2, 1, -2i32, -2i32, 0, 0, 0),
{
    Dimension::PowerLaw(2, 1, -2, -2, 0, 0, 0)
}

/// Flux, `L^2MT^-1I^-1`.
pub fn flux() -> (d: Dimension)
    ensures
        d == Dimension::PowerLaw(2, 1, -1i32, -1i32, 0, 0, 0),
{
    Dimension::PowerLaw(2, 1, -1, -1, 0, 0, 0)
}

/// Flux density, `MT^-1I^-1`.
pub fn flux_density() -> (d: Dimension)
    ensures
        d == Dimension::PowerLaw(0, 1, -1i32, -1i32, 0, 0, 0),
{
    Dimension::PowerLaw(0, 1, -1, -1, 0, 0, 0)
}

/// Magnetic field, `MT^-1I^-1`.
pub fn magnetic_field() -> (d: Dimension)
    ensures
        d == Dimension::PowerLaw(0, 1, -1i32, -1i32, 0, 0, 0),
{
    Dimension::PowerLaw(0, 1, -1, -1, 0, 0, 0)
}

/// Magnetic flux, `L^2MT^-1I^-1`.
pub fn magnetic_flux() -> (d: Dimension)
    ensures
        d == Dimension::PowerLaw(2, 1, -1i32, -1i32, 0, 0, 0),
{
    Dimension::PowerLaw(2, 1, -1, -1, 0, 0, 0)
}

/// Magnetic flux density, `LMT^-1I^-1`.
pub fn magnetic_flux_density() -> (d: Dimension)
    ensures
        d == Dimension::PowerLaw(1, 1, -1i32, -1i32, 0, 0, 0),
{
    Dimension::PowerLaw(1, 1, -1, -1, 0, 0, 0)
}

} // verus!
